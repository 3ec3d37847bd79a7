//! Accessibility lint rules over JSX opening elements.
//!
//! Each rule inspects one opening element and reports at most one
//! diagnostic, returned as the span the diagnostic labels. The walk over
//! the tree, and the rendering of messages, belong to the caller.

use vstd::prelude::*;
use crate::span::Span;
use crate::jsx::{
    bytes_eq, find_prop, has_jsx_prop_lowercase, spec_prop_value, JsxAttributeItem,
    JsxAttributeValue, JsxElementName, JsxExpression, JsxOpeningElement,
};

verus! {

/// The bytes of `"iframe"`.
pub open spec fn iframe_bytes() -> Seq<u8> {
    seq![105u8, 102u8, 114u8, 97u8, 109u8, 101u8]
}

/// The bytes of `"title"`.
pub open spec fn title_bytes() -> Seq<u8> {
    seq![116u8, 105u8, 116u8, 108u8, 101u8]
}

/// The bytes of `"scope"`.
pub open spec fn scope_bytes() -> Seq<u8> {
    seq![115u8, 99u8, 111u8, 112u8, 101u8]
}

/// The bytes of `"th"`.
pub open spec fn th_bytes() -> Seq<u8> {
    seq![116u8, 104u8]
}

/// The bytes of `"undefined"`.
pub open spec fn undefined_bytes() -> Seq<u8> {
    seq![117u8, 110u8, 100u8, 101u8, 102u8, 105u8, 110u8, 101u8, 100u8]
}

fn iframe_vec() -> (v: Vec<u8>)
    ensures
        v@ == iframe_bytes(),
{
    let v: Vec<u8> = vec![105u8, 102u8, 114u8, 97u8, 109u8, 101u8];
    proof {
        assert(v@ =~= iframe_bytes());
    }
    v
}

fn title_vec() -> (v: Vec<u8>)
    ensures
        v@ == title_bytes(),
{
    let v: Vec<u8> = vec![116u8, 105u8, 116u8, 108u8, 101u8];
    proof {
        assert(v@ =~= title_bytes());
    }
    v
}

fn scope_vec() -> (v: Vec<u8>)
    ensures
        v@ == scope_bytes(),
{
    let v: Vec<u8> = vec![115u8, 99u8, 111u8, 112u8, 101u8];
    proof {
        assert(v@ =~= scope_bytes());
    }
    v
}

fn th_vec() -> (v: Vec<u8>)
    ensures
        v@ == th_bytes(),
{
    let v: Vec<u8> = vec![116u8, 104u8];
    proof {
        assert(v@ =~= th_bytes());
    }
    v
}

fn undefined_vec() -> (v: Vec<u8>)
    ensures
        v@ == undefined_bytes(),
{
    let v: Vec<u8> = vec![117u8, 110u8, 100u8, 101u8, 102u8, 105u8, 110u8, 101u8, 100u8];
    proof {
        assert(v@ =~= undefined_bytes());
    }
    v
}

/// Whether a template literal counts as a usable title: it must have at
/// least one quasi, at least one interpolated expression, and some quasi
/// with non-empty raw text.
pub open spec fn template_title_ok(quasis: Seq<Vec<u8>>, expression_count: usize) -> bool {
    quasis.len() > 0 && expression_count > 0 && exists|i: int|
        0 <= i < quasis.len() && quasis[i]@.len() > 0
}

/// Whether an expression used as the `title` value satisfies the rule:
/// a non-empty string literal, a template literal with text and
/// interpolations, or an identifier reference other than `undefined`.
pub open spec fn title_expression_ok(e: JsxExpression) -> bool {
    match e {
        JsxExpression::StringLiteral { value } => value@.len() > 0,
        JsxExpression::TemplateLiteral { quasis, expression_count } => template_title_ok(
            quasis@,
            expression_count,
        ),
        JsxExpression::Identifier { name } => name@ != undefined_bytes(),
        _ => false,
    }
}

/// Whether a `title` attribute value satisfies the rule.
pub open spec fn title_value_ok(v: Option<JsxAttributeValue>) -> bool {
    match v {
        Some(JsxAttributeValue::StringLiteral { value }) => value@.len() > 0,
        Some(JsxAttributeValue::ExpressionContainer { expression: Some(e) }) => title_expression_ok(
            e,
        ),
        _ => false,
    }
}

/// Whether the iframe-has-title rule reports on `el`: the element is named
/// `iframe` and either has no `title` attribute or its `title` value does
/// not satisfy the rule.
pub open spec fn iframe_reports(el: JsxOpeningElement) -> bool {
    match el.name {
        JsxElementName::Identifier { name } => name@ == iframe_bytes() && match find_prop(
            el.attributes@,
            title_bytes(),
        ) {
            None => true,
            Some(item) => !title_value_ok(spec_prop_value(item)),
        },
        _ => false,
    }
}

/// Enforces that `iframe` elements carry a usable `title` attribute, so
/// screen reader users can tell what the frame holds.
#[derive(Debug, Default, Clone)]
pub struct IframeHasTitle;

impl IframeHasTitle {
    /// Runs the rule on one opening element; the returned span, if any,
    /// labels the diagnostic on the whole element.
    pub fn run(&self, el: &JsxOpeningElement) -> (r: Option<Span>)
        ensures
            r == (if iframe_reports(*el) {
                Some(el.span)
            } else {
                None::<Span>
            }),
    {
        let name = match &el.name {
            JsxElementName::Identifier { name } => name,
            _ => {
                return None;
            },
        };
        if !bytes_eq(name, &iframe_vec()) {
            return None;
        }
        let idx = match has_jsx_prop_lowercase(el, &title_vec()) {
            Some(i) => i,
            None => {
                return Some(el.span);
            },
        };
        let attr = match &el.attributes[idx] {
            JsxAttributeItem::Attribute(a) => a,
            JsxAttributeItem::SpreadAttribute { .. } => {
                proof {
                    assert(false);
                }
                return None;
            },
        };
        match &attr.value {
            Some(JsxAttributeValue::StringLiteral { value }) => {
                if value.len() > 0 {
                    return None;
                }
            },
            Some(JsxAttributeValue::ExpressionContainer { expression: Some(expr) }) => {
                match expr {
                    JsxExpression::StringLiteral { value } => {
                        if value.len() > 0 {
                            return None;
                        }
                    },
                    JsxExpression::TemplateLiteral { quasis, expression_count } => {
                        if quasis.len() > 0 && *expression_count > 0 && any_quasi_nonempty(
                            quasis,
                        ) {
                            return None;
                        }
                    },
                    JsxExpression::Identifier { name } => {
                        if !bytes_eq(name, &undefined_vec()) {
                            return None;
                        }
                    },
                    _ => {},
                }
            },
            _ => {},
        }
        Some(el.span)
    }
}

/// Whether some quasi has non-empty raw text.
fn any_quasi_nonempty(quasis: &Vec<Vec<u8>>) -> (r: bool)
    ensures
        r == exists|i: int| 0 <= i < quasis@.len() && quasis@[i]@.len() > 0,
{
    let mut i: usize = 0;
    while i < quasis.len()
        invariant
            i <= quasis@.len(),
            forall|j: int| 0 <= j < i ==> quasis@[j]@.len() == 0,
        decreases quasis@.len() - i,
    {
        if quasis[i].len() > 0 {
            return true;
        }
        i += 1;
    }
    false
}

/// The diagnostic of the scope rule on `el`, if any: the span of the first
/// `scope` attribute, reported when the element's name is an identifier
/// other than `th`.
pub open spec fn scope_report(el: JsxOpeningElement) -> Option<Span> {
    match find_prop(el.attributes@, scope_bytes()) {
        Some(JsxAttributeItem::Attribute(a)) => match el.name {
            JsxElementName::Identifier { name } => if name@ != th_bytes() {
                Some(a.span)
            } else {
                None
            },
            _ => None,
        },
        _ => None,
    }
}

/// Enforces that the `scope` attribute is used only on `th` elements.
#[derive(Debug, Default, Clone)]
pub struct Scope;

impl Scope {
    /// Runs the rule on one opening element; the returned span, if any,
    /// labels the diagnostic on the offending `scope` attribute.
    pub fn run(&self, el: &JsxOpeningElement) -> (r: Option<Span>)
        ensures
            r == scope_report(*el),
    {
        let idx = match has_jsx_prop_lowercase(el, &scope_vec()) {
            Some(i) => i,
            None => {
                return None;
            },
        };
        let attr = match &el.attributes[idx] {
            JsxAttributeItem::Attribute(a) => a,
            JsxAttributeItem::SpreadAttribute { .. } => {
                return None;
            },
        };
        let name = match &el.name {
            JsxElementName::Identifier { name } => name,
            _ => {
                return None;
            },
        };
        if bytes_eq(name, &th_vec()) {
            return None;
        }
        Some(attr.span)
    }
}

} // verus!
