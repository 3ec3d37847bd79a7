use jsfmt::parens::need_parens;
use jsfmt::span::Span;
use jsfmt::syntax::{Node, NodeKind, Tree, UnaryOperator};

struct Builder {
    tree: Tree,
}

impl Builder {
    fn new() -> Builder {
        Builder { tree: Tree::new() }
    }

    fn push(&mut self, kind: NodeKind) -> usize {
        let n = self.tree.len() as u32;
        self.tree.push(Node {
            span: Span::new(n * 10, n * 10 + 1),
            kind,
        })
    }

    fn ident(&mut self, name: &str) -> usize {
        self.push(NodeKind::Identifier {
            name: name.as_bytes().to_vec(),
        })
    }
}

// `(a ? b : c)()`: a conditional as the callee of a call is parenthesized.
#[test]
fn conditional_as_callee_needs_parens() {
    let mut b = Builder::new();
    let t = b.ident("a");
    let c1 = b.ident("b");
    let c2 = b.ident("c");
    let cond = b.push(NodeKind::ConditionalExpression {
        test: t,
        consequent: c1,
        alternate: c2,
    });
    let call = b.push(NodeKind::CallExpression {
        callee: cond,
        arguments: Vec::new(),
    });
    assert!(need_parens(&b.tree, &vec![call, cond]));
}

// `...(a || b)`: a logical operand of a spread is parenthesized.
#[test]
fn logical_under_spread_needs_parens() {
    let mut b = Builder::new();
    let x = b.ident("a");
    let y = b.ident("b");
    let lg = b.push(NodeKind::LogicalExpression { left: x, right: y });
    let sp = b.push(NodeKind::SpreadElement { argument: lg });
    assert!(need_parens(&b.tree, &vec![sp, lg]));
}

// `!(await x)`: an await under a unary operator is parenthesized.
#[test]
fn await_under_unary_needs_parens() {
    let mut b = Builder::new();
    let x = b.ident("x");
    let aw = b.push(NodeKind::AwaitExpression { argument: x });
    let not = b.push(NodeKind::UnaryExpression {
        operator: UnaryOperator::LogicalNot,
        argument: aw,
    });
    assert!(need_parens(&b.tree, &vec![not, aw]));
}

// `x = y;` needs no parentheses, but `({x} = y);` — an object assignment
// target on the left — does.
#[test]
fn assignment_statement_parens_depend_on_target() {
    let mut b = Builder::new();
    let x = b.ident("x");
    let y = b.ident("y");
    let plain = b.push(NodeKind::AssignmentExpression { left: x, right: y });
    let stmt = b.push(NodeKind::ExpressionStatement { expression: plain });
    assert!(!need_parens(&b.tree, &vec![stmt, plain]));

    let mut b2 = Builder::new();
    let target = b2.push(NodeKind::ObjectAssignmentTarget);
    let y2 = b2.ident("y");
    let destructure = b2.push(NodeKind::AssignmentExpression {
        left: target,
        right: y2,
    });
    let stmt2 = b2.push(NodeKind::ExpressionStatement {
        expression: destructure,
    });
    assert!(need_parens(&b2.tree, &vec![stmt2, destructure]));
}

// `(1).toString()`: a number as the base of a member access keeps its
// parentheses, since a bare dot would read as a decimal point.
#[test]
fn number_as_member_base_needs_parens() {
    let mut b = Builder::new();
    let n = b.push(NodeKind::NumberLiteral {
        raw: b"1".to_vec(),
    });
    let member = b.push(NodeKind::MemberExpression {
        object: n,
        property: b"toString".to_vec(),
    });
    assert!(need_parens(&b.tree, &vec![member, n]));
}

// `(() => x)()`: an arrow as the callee of a call is parenthesized.
#[test]
fn arrow_as_callee_needs_parens() {
    let mut b = Builder::new();
    let x = b.ident("x");
    let arrow = b.push(NodeKind::ArrowExpression {
        expression: Some(x),
    });
    let call = b.push(NodeKind::CallExpression {
        callee: arrow,
        arguments: Vec::new(),
    });
    assert!(need_parens(&b.tree, &vec![call, arrow]));
}

// `export default (function () {})`: a function expression exported as the
// default is parenthesized; exporting a plain call is not.
#[test]
fn export_default_wraps_function_expression() {
    let mut b = Builder::new();
    let f = b.push(NodeKind::Function { expression: true });
    let exp = b.push(NodeKind::ExportDefaultDeclaration {
        expression: Some(f),
    });
    assert!(need_parens(&b.tree, &vec![exp, f]));

    let mut b2 = Builder::new();
    let g = b2.ident("f");
    let call = b2.push(NodeKind::CallExpression {
        callee: g,
        arguments: Vec::new(),
    });
    let exp2 = b2.push(NodeKind::ExportDefaultDeclaration {
        expression: Some(call),
    });
    assert!(!need_parens(&b2.tree, &vec![exp2, call]));
}

// `export default a, b;`: a sequence as the default export is
// parenthesized.
#[test]
fn export_default_wraps_sequence() {
    let mut b = Builder::new();
    let x = b.ident("a");
    let y = b.ident("b");
    let seqe = b.push(NodeKind::SequenceExpression {
        expressions: vec![x, y],
    });
    let exp = b.push(NodeKind::ExportDefaultDeclaration {
        expression: Some(seqe),
    });
    assert!(need_parens(&b.tree, &vec![exp, seqe]));
}

// An object literal that is the expression body of an arrow function is
// parenthesized: `() => ({})`.
#[test]
fn object_as_arrow_body_needs_parens() {
    let mut b = Builder::new();
    let obj = b.push(NodeKind::ObjectExpression {
        properties: Vec::new(),
    });
    let arrow = b.push(NodeKind::ArrowExpression {
        expression: Some(obj),
    });
    assert!(need_parens(&b.tree, &vec![arrow, obj]));
}

// A statement or program node itself never takes parentheses.
#[test]
fn statements_never_take_parens() {
    let mut b = Builder::new();
    let x = b.ident("x");
    let stmt = b.push(NodeKind::ExpressionStatement { expression: x });
    let prog = b.push(NodeKind::Program { body: vec![stmt] });
    assert!(!need_parens(&b.tree, &vec![prog]));
    assert!(!need_parens(&b.tree, &vec![prog, stmt]));
}
