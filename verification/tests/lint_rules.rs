use jsfmt::jsx::{
    JsxAttribute, JsxAttributeItem, JsxAttributeValue, JsxElementName, JsxExpression,
    JsxOpeningElement,
};
use jsfmt::lint::{IframeHasTitle, Scope};
use jsfmt::span::Span;

fn element(name: &str, attributes: Vec<JsxAttributeItem>) -> JsxOpeningElement {
    JsxOpeningElement {
        span: Span::new(0, 40),
        name: JsxElementName::Identifier {
            name: name.as_bytes().to_vec(),
        },
        attributes,
    }
}

fn attribute(name: &str, value: Option<JsxAttributeValue>) -> JsxAttributeItem {
    JsxAttributeItem::Attribute(JsxAttribute {
        span: Span::new(5, 20),
        name: name.as_bytes().to_vec(),
        value,
    })
}

fn spread() -> JsxAttributeItem {
    JsxAttributeItem::SpreadAttribute {
        span: Span::new(5, 20),
    }
}

fn string_value(s: &str) -> Option<JsxAttributeValue> {
    Some(JsxAttributeValue::StringLiteral {
        value: s.as_bytes().to_vec(),
    })
}

fn container(e: JsxExpression) -> Option<JsxAttributeValue> {
    Some(JsxAttributeValue::ExpressionContainer {
        expression: Some(e),
    })
}

fn ident(name: &str) -> JsxExpression {
    JsxExpression::Identifier {
        name: name.as_bytes().to_vec(),
    }
}

#[test]
fn iframe_has_title_test() {
    let rule = IframeHasTitle;

    let pass = vec![
        // <div />;
        element("div", vec![]),
        // <iframe title='Unique title' />
        element("iframe", vec![attribute("title", string_value("Unique title"))]),
        // <iframe title={foo} />
        element("iframe", vec![attribute("title", container(ident("foo")))]),
        // <FooComponent />
        element("FooComponent", vec![]),
    ];
    for el in &pass {
        assert_eq!(rule.run(el), None);
    }

    let fail = vec![
        // <iframe />
        element("iframe", vec![]),
        // <iframe {...props} />
        element("iframe", vec![spread()]),
        // <iframe title={undefined} />
        element("iframe", vec![attribute("title", container(ident("undefined")))]),
        // <iframe title='' />
        element("iframe", vec![attribute("title", string_value(""))]),
        // <iframe title={false} />
        element(
            "iframe",
            vec![attribute(
                "title",
                container(JsxExpression::BooleanLiteral { value: false }),
            )],
        ),
        // <iframe title={true} />
        element(
            "iframe",
            vec![attribute(
                "title",
                container(JsxExpression::BooleanLiteral { value: true }),
            )],
        ),
        // <iframe title={''} />
        element(
            "iframe",
            vec![attribute(
                "title",
                container(JsxExpression::StringLiteral { value: Vec::new() }),
            )],
        ),
        // <iframe title={``} />
        element(
            "iframe",
            vec![attribute(
                "title",
                container(JsxExpression::TemplateLiteral {
                    quasis: vec![Vec::new()],
                    expression_count: 0,
                }),
            )],
        ),
        // <iframe title={42} />
        element(
            "iframe",
            vec![attribute("title", container(JsxExpression::NumericLiteral))],
        ),
    ];
    for el in &fail {
        assert_eq!(rule.run(el), Some(el.span));
    }
}

#[test]
fn scope_test() {
    let rule = Scope;

    let pass = vec![
        // <div />;
        element("div", vec![]),
        // <div foo />;
        element("div", vec![attribute("foo", None)]),
        // <th scope />
        element("th", vec![attribute("scope", None)]),
        // <th scope='row' />
        element("th", vec![attribute("scope", string_value("row"))]),
        // <th scope={foo} />
        element("th", vec![attribute("scope", container(ident("foo")))]),
        // <th scope={'col'} {...props} />
        element(
            "th",
            vec![
                attribute(
                    "scope",
                    container(JsxExpression::StringLiteral {
                        value: b"col".to_vec(),
                    }),
                ),
                spread(),
            ],
        ),
    ];
    for el in &pass {
        assert_eq!(rule.run(el), None);
    }

    // <div scope />
    let bad = element("div", vec![attribute("scope", None)]);
    assert_eq!(rule.run(&bad), Some(Span::new(5, 20)));
}

#[test]
fn title_attribute_name_is_matched_case_insensitively() {
    let rule = IframeHasTitle;
    let el = element("iframe", vec![attribute("TITLE", string_value("ok"))]);
    assert_eq!(rule.run(&el), None);
}

#[test]
fn template_title_with_interpolation_and_text_passes() {
    let rule = IframeHasTitle;
    let el = element(
        "iframe",
        vec![attribute(
            "title",
            container(JsxExpression::TemplateLiteral {
                quasis: vec![b"hello ".to_vec(), Vec::new()],
                expression_count: 1,
            }),
        )],
    );
    assert_eq!(rule.run(&el), None);
}
