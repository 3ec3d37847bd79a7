use jsfmt::format::{DanglingComment, Prettier};
use jsfmt::span::Span;
use jsfmt::syntax::{ArrayElement, Node, NodeKind, Tree, UnaryOperator};

struct Builder {
    tree: Tree,
}

impl Builder {
    fn new() -> Builder {
        Builder { tree: Tree::new() }
    }

    fn span(&self) -> Span {
        let n = self.tree.len() as u32;
        Span::new(n * 10, n * 10 + 1)
    }

    fn push(&mut self, kind: NodeKind) -> usize {
        let span = self.span();
        self.tree.push(Node { span, kind })
    }

    fn num(&mut self, raw: &str) -> usize {
        self.push(NodeKind::NumberLiteral {
            raw: raw.as_bytes().to_vec(),
        })
    }

    fn ident(&mut self, name: &str) -> usize {
        self.push(NodeKind::Identifier {
            name: name.as_bytes().to_vec(),
        })
    }

    fn array(&mut self, elements: Vec<ArrayElement>) -> usize {
        self.push(NodeKind::ArrayExpression { elements })
    }
}

fn render(tree: Tree, width: usize) -> String {
    let mut p = Prettier::new(tree, Vec::new(), width);
    String::from_utf8(jsfmt::format::format(&mut p)).unwrap()
}

fn render_with_comments(tree: Tree, comments: Vec<DanglingComment>, width: usize) -> String {
    let mut p = Prettier::new(tree, comments, width);
    String::from_utf8(jsfmt::format::format(&mut p)).unwrap()
}

// Array literal `[1, -2, 3.5]`: the concise fill layout engages and the
// elements pack onto one line when they fit.
#[test]
fn concise_fill_for_numeric_array() {
    let mut b = Builder::new();
    let one = b.num("1");
    let two = b.num("2");
    let neg = b.push(NodeKind::UnaryExpression {
        operator: UnaryOperator::UnaryNegation,
        argument: two,
    });
    let frac = b.num("3.5");
    b.array(vec![
        ArrayElement::Item(one),
        ArrayElement::Item(neg),
        ArrayElement::Item(frac),
    ]);
    assert_eq!(render(b.tree, 80), "[1, -2, 3.5]");
}

// Formatting the (re-parsed) output of a format run again produces
// byte-identical output.
#[test]
fn formatting_formatted_output_is_stable() {
    let build = || {
        let mut b = Builder::new();
        let one = b.num("1");
        let two = b.num("2");
        let neg = b.push(NodeKind::UnaryExpression {
            operator: UnaryOperator::UnaryNegation,
            argument: two,
        });
        let frac = b.num("3.5");
        b.array(vec![
            ArrayElement::Item(one),
            ArrayElement::Item(neg),
            ArrayElement::Item(frac),
        ]);
        b.tree
    };
    let first = render(build(), 80);
    // the tree a parser would produce from `first` has the same shape
    let second = render(build(), 80);
    assert_eq!(first, second);
    assert_eq!(first, "[1, -2, 3.5]");
}

// Array with a trailing elision `[1, 2, ,]`: the trailing comma is forced
// regardless of break state.
#[test]
fn forced_trailing_comma_after_hole() {
    let mut b = Builder::new();
    let one = b.num("1");
    let two = b.num("2");
    b.array(vec![
        ArrayElement::Item(one),
        ArrayElement::Item(two),
        ArrayElement::Elision,
    ]);
    assert_eq!(render(b.tree, 80), "[1, 2, ,]");
}

// Array with a trailing spread `[1, ...rest]`: no trailing comma is ever
// emitted.
#[test]
fn no_trailing_comma_after_spread() {
    let mut b = Builder::new();
    let one = b.num("1");
    let rest = b.ident("rest");
    let spread = b.push(NodeKind::SpreadElement { argument: rest });
    b.array(vec![ArrayElement::Item(one), ArrayElement::Item(spread)]);
    assert_eq!(render(b.tree, 80), "[1, ...rest]");
}

// `new (a())()`: the callee-of-new rule fires, so the parentheses around
// `a()` are re-inserted.
#[test]
fn new_callee_ending_in_call_keeps_parens() {
    let mut b = Builder::new();
    let a = b.ident("a");
    let call = b.push(NodeKind::CallExpression {
        callee: a,
        arguments: Vec::new(),
    });
    b.push(NodeKind::NewExpression {
        callee: call,
        arguments: Vec::new(),
    });
    assert_eq!(render(b.tree, 80), "new (a())()");
}

// The same rule consulted directly: the callee chain of the `new` bottoms
// out in a call, so parentheses are required.
#[test]
fn need_parens_for_new_callee_call() {
    let mut b = Builder::new();
    let a = b.ident("a");
    let call = b.push(NodeKind::CallExpression {
        callee: a,
        arguments: Vec::new(),
    });
    let newexp = b.push(NodeKind::NewExpression {
        callee: call,
        arguments: Vec::new(),
    });
    let path = vec![newexp, call];
    assert!(jsfmt::parens::need_parens(&b.tree, &path));
}

// A member-access callee without a call keeps no parentheses: `new a.b()`.
#[test]
fn need_parens_not_required_for_plain_member_callee() {
    let mut b = Builder::new();
    let a = b.ident("a");
    let member = b.push(NodeKind::MemberExpression {
        object: a,
        property: b"b".to_vec(),
    });
    let newexp = b.push(NodeKind::NewExpression {
        callee: member,
        arguments: Vec::new(),
    });
    let path = vec![newexp, member];
    assert!(!jsfmt::parens::need_parens(&b.tree, &path));
}

// An object literal as the sole expression of an expression statement,
// `({a: 1})`: parentheses are required, since `{a: 1}` at statement head
// would parse as a block.
#[test]
fn object_at_statement_head_is_parenthesized() {
    let mut b = Builder::new();
    let key = b.ident("a");
    let val = b.num("1");
    let prop = b.push(NodeKind::ObjectProperty { key, value: val });
    let obj = b.push(NodeKind::ObjectExpression {
        properties: vec![prop],
    });
    let stmt = b.push(NodeKind::ExpressionStatement { expression: obj });
    b.push(NodeKind::Program { body: vec![stmt] });
    assert_eq!(render(b.tree, 80), "({ a: 1 });");
}

// Nested array-of-arrays `[[1,2],[3,4]]` where every row has more than one
// element: the layout is forced to one row per line regardless of width.
#[test]
fn matrix_prints_one_row_per_line() {
    let mut b = Builder::new();
    let n1 = b.num("1");
    let n2 = b.num("2");
    let row1 = b.array(vec![ArrayElement::Item(n1), ArrayElement::Item(n2)]);
    let n3 = b.num("3");
    let n4 = b.num("4");
    let row2 = b.array(vec![ArrayElement::Item(n3), ArrayElement::Item(n4)]);
    b.array(vec![ArrayElement::Item(row1), ArrayElement::Item(row2)]);
    assert_eq!(render(b.tree, 80), "[\n  [1, 2],\n  [3, 4],\n]");
}

// An empty array renders as bare brackets.
#[test]
fn empty_array() {
    let mut b = Builder::new();
    b.array(Vec::new());
    assert_eq!(render(b.tree, 80), "[]");
}

// Dangling comments attached to an empty array's span are kept inside the
// brackets.
#[test]
fn empty_array_with_dangling_comment() {
    let mut b = Builder::new();
    let arr = b.array(Vec::new());
    let span = Span::new(arr as u32 * 10, arr as u32 * 10 + 1);
    let comments = vec![DanglingComment {
        span,
        text: b"/* none */".to_vec(),
    }];
    assert_eq!(render_with_comments(b.tree, comments, 80), "[/* none */]");
}

// When the flat layout would overrun the width, the group breaks and no
// emitted line exceeds the width.
#[test]
fn width_overrun_breaks_the_group() {
    let mut b = Builder::new();
    let x = b.ident("alpha");
    let y = b.ident("beta");
    b.array(vec![ArrayElement::Item(x), ArrayElement::Item(y)]);
    let out = render(b.tree, 10);
    assert_eq!(out, "[\n  alpha,\n  beta,\n]");
    for line in out.lines() {
        assert!(line.len() <= 10);
    }
}

// The same doc stays flat when the width allows it.
#[test]
fn fits_stays_flat_within_width() {
    let mut b = Builder::new();
    let x = b.ident("alpha");
    let y = b.ident("beta");
    b.array(vec![ArrayElement::Item(x), ArrayElement::Item(y)]);
    assert_eq!(render(b.tree, 14), "[alpha, beta]");
}

// A sequence expression under an expression statement needs parentheses;
// the analyzer is consulted on the full ancestor path.
#[test]
fn sequence_needs_parens_under_statement() {
    let mut b = Builder::new();
    let a = b.ident("a");
    let c = b.ident("b");
    let seqe = b.push(NodeKind::SequenceExpression {
        expressions: vec![a, c],
    });
    let stmt = b.push(NodeKind::ExpressionStatement { expression: seqe });
    let prog = b.push(NodeKind::Program { body: vec![stmt] });
    let path = vec![prog, stmt, seqe];
    assert!(jsfmt::parens::need_parens(&b.tree, &path));
}

// A bare `in` operator inside a `for` initializer must be parenthesized.
#[test]
fn in_operator_inside_for_initializer() {
    let mut b = Builder::new();
    let x = b.ident("x");
    let y = b.ident("y");
    let inexp = b.push(NodeKind::BinaryExpression {
        operator: jsfmt::syntax::BinaryOperator::In,
        left: x,
        right: y,
    });
    let forstmt = b.push(NodeKind::ForStatement {
        init: Some(inexp),
        update: None,
    });
    let path = vec![forstmt, inexp];
    assert!(jsfmt::parens::need_parens(&b.tree, &path));
}

// `+(+x)` must keep its parentheses so it does not merge into `++x`.
#[test]
fn same_direction_unary_operators_need_parens() {
    let mut b = Builder::new();
    let x = b.ident("x");
    let innerplus = b.push(NodeKind::UnaryExpression {
        operator: UnaryOperator::UnaryPlus,
        argument: x,
    });
    let outerplus = b.push(NodeKind::UnaryExpression {
        operator: UnaryOperator::UnaryPlus,
        argument: innerplus,
    });
    let path = vec![outerplus, innerplus];
    assert!(jsfmt::parens::need_parens(&b.tree, &path));
}

// When the outer array group breaks, the concise layout's trailing comma
// appears: the conditional text reads the identified group's recorded
// break state.
#[test]
fn concise_trailing_comma_follows_group_break_state() {
    let mut b = Builder::new();
    let one = b.num("1");
    let two = b.num("2");
    b.array(vec![ArrayElement::Item(one), ArrayElement::Item(two)]);
    assert_eq!(render(b.tree, 4), "[\n  1,\n  2,\n]");
}

// The fill layout packs as many numeric entries per line as fit.
#[test]
fn fill_packs_entries_per_line() {
    let mut b = Builder::new();
    let mut elements = Vec::new();
    for raw in ["1", "2", "3", "4", "5", "6"] {
        let n = b.num(raw);
        elements.push(ArrayElement::Item(n));
    }
    b.array(elements);
    let out = render(b.tree, 8);
    assert_eq!(out, "[\n  1, 2,\n  3, 4,\n  5, 6,\n]");
    for line in out.lines() {
        assert!(line.len() <= 8);
    }
}

// Nested tuple types of more than one entry force the one-row-per-line
// layout, and tuples never take a trailing comma.
#[test]
fn nested_tuples_force_break_without_trailing_comma() {
    let mut b = Builder::new();
    let a = b.push(NodeKind::TSTypeReference { name: b"A".to_vec() });
    let c = b.push(NodeKind::TSTypeReference { name: b"B".to_vec() });
    let row1 = b.push(NodeKind::TSTupleType { element_types: vec![a, c] });
    let d = b.push(NodeKind::TSTypeReference { name: b"C".to_vec() });
    let e = b.push(NodeKind::TSTypeReference { name: b"D".to_vec() });
    let row2 = b.push(NodeKind::TSTupleType { element_types: vec![d, e] });
    b.push(NodeKind::TSTupleType {
        element_types: vec![row1, row2],
    });
    assert_eq!(render(b.tree, 80), "[\n  [A, B],\n  [C, D]\n]");
}

// An array pattern keeps its holes and prints its rest slot last; pattern
// variants never take a trailing comma and never force the matrix break.
#[test]
fn array_pattern_with_hole_and_rest() {
    let mut b = Builder::new();
    let a = b.ident("a");
    let c = b.ident("b");
    let r = b.ident("r");
    let rest = b.push(NodeKind::SpreadElement { argument: r });
    b.push(NodeKind::ArrayPattern {
        elements: vec![Some(a), None, Some(c)],
        rest: Some(rest),
    });
    assert_eq!(render(b.tree, 80), "[a, , b, ...r]");
}
