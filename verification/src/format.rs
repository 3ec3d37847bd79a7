//! The formatting driver.
//!
//! The driver walks the syntax tree top-down, keeping the ancestor path in
//! `nodes`. At each node it builds a doc for the node's kind, asks the
//! parenthesization analysis whether the printed form must be wrapped in
//! parentheses, and assembles the result bottom-up in the doc arena. The
//! array-like family is printed by the policy of the `array` module; the
//! other kinds covered here are the expressions and statements that appear
//! inside and around such arrays. Kinds outside this slice render as empty
//! text.
//!
//! Every doc-building function carries an exact contract: the view of the
//! doc it appends equals the specification-level doc of the node, and the
//! group-identifier counter moves exactly as specified. Dangling comments
//! are handed in as data: a list of spans with comment text, standing in
//! for the comment-attachment service.

use vstd::prelude::*;
use crate::span::Span;
use crate::syntax::{kind_of, node_wf, span_of, tree_wf, ArrayElement, NodeKind, Tree,
    UnaryOperator, UpdateOperator};
use crate::doc::{arena_wf, doc_model, model_refs, model_scoped, models_of, lemma_doc_model_prefix, lemma_models_of_index,
    DocArena, DocKind, DocModel};
use crate::parens::{need_parens, spec_need_parens};
use crate::array::{array_node, spec_array_len, spec_is_concisely_printed,
    spec_should_break, Array};

verus! {

/// One dangling comment: its source span and its text.
pub struct DanglingComment {
    pub span: Span,
    pub text: Vec<u8>,
}

/// The state of one formatting run.
pub struct Prettier {
    pub tree: Tree,
    pub nodes: Vec<usize>,
    pub docs: DocArena,
    pub comments: Vec<DanglingComment>,
    pub width: usize,
}


/// The node kinds this driver prints: the array-like family, the
/// expressions and statements that appear inside and around it, and the
/// literals. Invoking the driver on any other kind is a defect; the
/// dispatch is kept exhaustive by requiring every node of the tree to be
/// one of these.
pub open spec fn printable_kind(k: NodeKind) -> bool {
    match k {
        NodeKind::NumberLiteral { .. } => true,
        NodeKind::StringLiteral { .. } => true,
        NodeKind::Identifier { .. } => true,
        NodeKind::TSTypeReference { .. } => true,
        NodeKind::UnaryExpression { .. } => true,
        NodeKind::UpdateExpression { .. } => true,
        NodeKind::SpreadElement { .. } => true,
        NodeKind::MemberExpression { .. } => true,
        NodeKind::CallExpression { .. } => true,
        NodeKind::NewExpression { .. } => true,
        NodeKind::ObjectExpression { .. } => true,
        NodeKind::ObjectProperty { .. } => true,
        NodeKind::ArrayExpression { .. } => true,
        NodeKind::TSTupleType { .. } => true,
        NodeKind::ArrayPattern { .. } => true,
        NodeKind::ArrayAssignmentTarget { .. } => true,
        NodeKind::ExpressionStatement { .. } => true,
        NodeKind::Program { .. } => true,
        _ => false,
    }
}

/// Every node of the tree has a kind the driver prints.
pub open spec fn tree_printable(t: Tree) -> bool {
    forall|i: int| 0 <= i < t.nodes@.len() ==> #[trigger] printable_kind(t.nodes@[i].kind)
}

pub open spec fn lbrack_b() -> Seq<u8> {
    seq![91u8]
}

pub open spec fn rbrack_b() -> Seq<u8> {
    seq![93u8]
}

pub open spec fn comma_b() -> Seq<u8> {
    seq![44u8]
}

pub open spec fn comma_sp_b() -> Seq<u8> {
    seq![44u8, 32u8]
}

pub open spec fn lparen_b() -> Seq<u8> {
    seq![40u8]
}

pub open spec fn rparen_b() -> Seq<u8> {
    seq![41u8]
}

pub open spec fn dot_b() -> Seq<u8> {
    seq![46u8]
}

pub open spec fn spread_b() -> Seq<u8> {
    seq![46u8, 46u8, 46u8]
}

pub open spec fn new_sp_b() -> Seq<u8> {
    seq![110u8, 101u8, 119u8, 32u8]
}

pub open spec fn lbrace_b() -> Seq<u8> {
    seq![123u8]
}

pub open spec fn rbrace_b() -> Seq<u8> {
    seq![125u8]
}

pub open spec fn colon_sp_b() -> Seq<u8> {
    seq![58u8, 32u8]
}

pub open spec fn semi_b() -> Seq<u8> {
    seq![59u8]
}

pub open spec fn empty_b() -> Seq<u8> {
    Seq::empty()
}

pub open spec fn brackets_b() -> Seq<u8> {
    seq![91u8, 93u8]
}

pub open spec fn braces_b() -> Seq<u8> {
    seq![123u8, 125u8]
}

/// The printed text of a prefix operator.
pub open spec fn unary_op_b(op: UnaryOperator) -> Seq<u8> {
    match op {
        UnaryOperator::UnaryPlus => seq![43u8],
        UnaryOperator::UnaryNegation => seq![45u8],
        UnaryOperator::LogicalNot => seq![33u8],
        UnaryOperator::BitwiseNot => seq![126u8],
        UnaryOperator::Typeof => seq![116u8, 121u8, 112u8, 101u8, 111u8, 102u8, 32u8],
        UnaryOperator::Void => seq![118u8, 111u8, 105u8, 100u8, 32u8],
        UnaryOperator::Delete => seq![100u8, 101u8, 108u8, 101u8, 116u8, 101u8, 32u8],
    }
}

/// The printed text of an update operator.
pub open spec fn update_op_b(op: UpdateOperator) -> Seq<u8> {
    match op {
        UpdateOperator::Increment => seq![43u8, 43u8],
        UpdateOperator::Decrement => seq![45u8, 45u8],
    }
}

/// Shorthand for a text doc view.
pub open spec fn tm(s: Seq<u8>) -> DocModel {
    DocModel::Text(s)
}

/// The separators the list joiners use.
#[derive(Clone, Copy, PartialEq, Eq, Structural, Debug)]
pub enum SepKind {
    CommaLine,
    CommaSpace,
    HardBreak,
}

/// The doc parts a separator contributes between two list items.
pub open spec fn sep_models(sep: SepKind) -> Seq<DocModel> {
    match sep {
        SepKind::CommaLine => seq![tm(comma_b()), DocModel::Line],
        SepKind::CommaSpace => seq![tm(comma_sp_b())],
        SepKind::HardBreak => seq![DocModel::HardLine],
    }
}

/// The text of the first dangling comment lying on `span`, if any.
pub open spec fn spec_comment_for(cm: Seq<DanglingComment>, span: Span) -> Option<Seq<u8>>
    decreases cm.len(),
{
    if cm.len() == 0 {
        None
    } else if cm[0].span == span {
        Some(cm[0].text@)
    } else {
        spec_comment_for(cm.drop_first(), span)
    }
}

/// The elements of an array-like node, seen uniformly: a tuple element or
/// a present pattern slot is an item, an elided or absent slot a hole.
pub open spec fn family_elem_at(t: Tree, i: int, k: int) -> ArrayElement {
    match kind_of(t, i) {
        NodeKind::ArrayExpression { elements } => elements@[k],
        NodeKind::TSTupleType { element_types } => ArrayElement::Item(element_types@[k]),
        NodeKind::ArrayPattern { elements, .. } => match elements@[k] {
            Some(x) => ArrayElement::Item(x),
            None => ArrayElement::Elision,
        },
        NodeKind::ArrayAssignmentTarget { elements, .. } => match elements@[k] {
            Some(x) => ArrayElement::Item(x),
            None => ArrayElement::Elision,
        },
        _ => ArrayElement::Elision,
    }
}

/// The rest slot of a pattern-like node.
pub open spec fn family_rest(t: Tree, i: int) -> Option<usize> {
    match kind_of(t, i) {
        NodeKind::ArrayPattern { rest, .. } => rest,
        NodeKind::ArrayAssignmentTarget { rest, .. } => rest,
        _ => None,
    }
}

/// The child list of a node whose children form a plain list.
pub open spec fn id_list_of(t: Tree, i: int) -> Seq<usize> {
    match kind_of(t, i) {
        NodeKind::CallExpression { arguments, .. } => arguments@,
        NodeKind::NewExpression { arguments, .. } => arguments@,
        NodeKind::ObjectExpression { properties } => properties@,
        NodeKind::Program { body } => body@,
        _ => Seq::empty(),
    }
}

/// The array-policy variant for an array-like node, if the kind is one.
pub open spec fn array_of(t: Tree, i: int) -> Option<Array> {
    match kind_of(t, i) {
        NodeKind::ArrayExpression { .. } => Some(Array::ArrayExpression(i as usize)),
        NodeKind::TSTupleType { .. } => Some(Array::TSTupleType(i as usize)),
        NodeKind::ArrayPattern { .. } => Some(Array::ArrayPattern(i as usize)),
        NodeKind::ArrayAssignmentTarget { .. } => Some(Array::ArrayAssignmentTarget(i as usize)),
        _ => None,
    }
}

/// The doc of the node at the end of `path`, wrapped in parentheses when
/// the analysis requires it, together with the counter after the node.
pub open spec fn spec_format_node(
    t: Tree,
    cm: Seq<DanglingComment>,
    path: Seq<usize>,
    c: u32,
) -> (DocModel, u32)
    decreases path[path.len() - 1] as int, 9int, 0int,
{
    let inner = spec_format_inner(t, cm, path, c);
    if spec_need_parens(t, path) {
        (DocModel::Array(seq![tm(lparen_b()), inner.0, tm(rparen_b())]), inner.1)
    } else {
        inner
    }
}

/// The doc of the node itself, before parenthesization.
pub open spec fn spec_format_inner(
    t: Tree,
    cm: Seq<DanglingComment>,
    path: Seq<usize>,
    c: u32,
) -> (DocModel, u32)
    decreases path[path.len() - 1] as int, 8int, 0int,
{
    let i = path[path.len() - 1] as int;
    match kind_of(t, i) {
        NodeKind::NumberLiteral { raw } => (tm(raw@), c),
        NodeKind::StringLiteral { raw } => (tm(raw@), c),
        NodeKind::Identifier { name } => (tm(name@), c),
        NodeKind::TSTypeReference { name } => (tm(name@), c),
        NodeKind::UnaryExpression { operator, argument } => {
            if 0 <= argument < i {
                let d = spec_format_node(t, cm, path.push(argument), c);
                (DocModel::Array(seq![tm(unary_op_b(operator)), d.0]), d.1)
            } else {
                (tm(empty_b()), c)
            }
        },
        NodeKind::UpdateExpression { operator, prefix, argument } => {
            if 0 <= argument < i {
                let d = spec_format_node(t, cm, path.push(argument), c);
                if prefix {
                    (DocModel::Array(seq![tm(update_op_b(operator)), d.0]), d.1)
                } else {
                    (DocModel::Array(seq![d.0, tm(update_op_b(operator))]), d.1)
                }
            } else {
                (tm(empty_b()), c)
            }
        },
        NodeKind::SpreadElement { argument } => {
            if 0 <= argument < i {
                let d = spec_format_node(t, cm, path.push(argument), c);
                (DocModel::Array(seq![tm(spread_b()), d.0]), d.1)
            } else {
                (tm(empty_b()), c)
            }
        },
        NodeKind::MemberExpression { object, property } => {
            if 0 <= object < i {
                let d = spec_format_node(t, cm, path.push(object), c);
                (DocModel::Array(seq![d.0, tm(dot_b()), tm(property@)]), d.1)
            } else {
                (tm(empty_b()), c)
            }
        },
        NodeKind::CallExpression { callee, .. } => {
            if 0 <= callee < i {
                let d = spec_format_node(t, cm, path.push(callee), c);
                let ps = spec_id_parts(t, cm, path, 0, d.1, SepKind::CommaSpace);
                (
                    DocModel::Array(
                        seq![d.0, tm(lparen_b())] + ps.0 + seq![tm(rparen_b())],
                    ),
                    ps.1,
                )
            } else {
                (tm(empty_b()), c)
            }
        },
        NodeKind::NewExpression { callee, .. } => {
            if 0 <= callee < i {
                let d = spec_format_node(t, cm, path.push(callee), c);
                let ps = spec_id_parts(t, cm, path, 0, d.1, SepKind::CommaSpace);
                (
                    DocModel::Array(
                        seq![tm(new_sp_b()), d.0, tm(lparen_b())] + ps.0 + seq![tm(rparen_b())],
                    ),
                    ps.1,
                )
            } else {
                (tm(empty_b()), c)
            }
        },
        NodeKind::ObjectExpression { properties } => {
            if properties@.len() == 0 {
                (tm(braces_b()), c)
            } else {
                let ps = spec_id_parts(t, cm, path, 0, c, SepKind::CommaLine);
                (
                    DocModel::Group {
                        parts: seq![
                            tm(lbrace_b()),
                            DocModel::Indent(seq![DocModel::Line] + ps.0),
                            DocModel::Line,
                            tm(rbrace_b()),
                        ],
                        should_break: false,
                        id: None,
                    },
                    ps.1,
                )
            }
        },
        NodeKind::ObjectProperty { key, value } => {
            if 0 <= key < i && 0 <= value < i {
                let kd = spec_format_node(t, cm, path.push(key), c);
                let vd = spec_format_node(t, cm, path.push(value), kd.1);
                (DocModel::Array(seq![kd.0, tm(colon_sp_b()), vd.0]), vd.1)
            } else {
                (tm(empty_b()), c)
            }
        },
        NodeKind::ArrayExpression { .. } => spec_print_array(t, cm, path, c),
        NodeKind::TSTupleType { .. } => spec_print_array(t, cm, path, c),
        NodeKind::ArrayPattern { .. } => spec_print_array(t, cm, path, c),
        NodeKind::ArrayAssignmentTarget { .. } => spec_print_array(t, cm, path, c),
        NodeKind::ExpressionStatement { expression } => {
            if 0 <= expression < i {
                let d = spec_format_node(t, cm, path.push(expression), c);
                (DocModel::Array(seq![d.0, tm(semi_b())]), d.1)
            } else {
                (tm(empty_b()), c)
            }
        },
        NodeKind::Program { .. } => {
            let ps = spec_id_parts(t, cm, path, 0, c, SepKind::HardBreak);
            (DocModel::Array(ps.0), ps.1)
        },
        _ => (tm(empty_b()), c),
    }
}

/// The docs of the id-list children from position `k` on, joined by `sep`.
pub open spec fn spec_id_parts(
    t: Tree,
    cm: Seq<DanglingComment>,
    path: Seq<usize>,
    k: int,
    c: u32,
    sep: SepKind,
) -> (Seq<DocModel>, u32)
    decreases path[path.len() - 1] as int, 5int, id_list_of(t, path[path.len() - 1] as int).len()
        - k,
{
    let i = path[path.len() - 1] as int;
    let ids = id_list_of(t, i);
    if !(0 <= k < ids.len()) {
        (Seq::empty(), c)
    } else {
        let d = if 0 <= ids[k] < i {
            spec_format_node(t, cm, path.push(ids[k]), c)
        } else {
            (tm(empty_b()), c)
        };
        let rest = spec_id_parts(t, cm, path, k + 1, d.1, sep);
        if k > 0 {
            (sep_models(sep) + seq![d.0] + rest.0, rest.1)
        } else {
            (seq![d.0] + rest.0, rest.1)
        }
    }
}

/// The docs of the array-family elements from position `k` on, separated
/// by comma-line pairs; a hole prints as empty text.
pub open spec fn spec_family_parts(
    t: Tree,
    cm: Seq<DanglingComment>,
    path: Seq<usize>,
    k: int,
    c: u32,
) -> (Seq<DocModel>, u32)
    decreases path[path.len() - 1] as int, 5int, spec_array_len(t, path[path.len() - 1] as int)
        - k,
{
    let i = path[path.len() - 1] as int;
    let n = spec_array_len(t, i);
    if !(0 <= k < n) {
        (Seq::empty(), c)
    } else {
        let d = match family_elem_at(t, i, k) {
            ArrayElement::Elision => (tm(empty_b()), c),
            ArrayElement::Item(ch) => if 0 <= ch < i {
                spec_format_node(t, cm, path.push(ch), c)
            } else {
                (tm(empty_b()), c)
            },
        };
        let rest = spec_family_parts(t, cm, path, k + 1, d.1);
        if k > 0 {
            (seq![tm(comma_b()), DocModel::Line, d.0] + rest.0, rest.1)
        } else {
            (seq![d.0] + rest.0, rest.1)
        }
    }
}

/// The concise fill parts from position `k` on: each element is followed
/// by a comma, the last by the given trailing doc, with soft lines
/// between the pairs.
pub open spec fn spec_concise_parts(
    t: Tree,
    cm: Seq<DanglingComment>,
    path: Seq<usize>,
    k: int,
    c: u32,
    trailing: DocModel,
) -> (Seq<DocModel>, u32)
    decreases path[path.len() - 1] as int, 5int, spec_array_len(t, path[path.len() - 1] as int)
        - k,
{
    let i = path[path.len() - 1] as int;
    let n = spec_array_len(t, i);
    if !(0 <= k < n) {
        (Seq::empty(), c)
    } else {
        let d = match family_elem_at(t, i, k) {
            ArrayElement::Elision => (tm(empty_b()), c),
            ArrayElement::Item(ch) => if 0 <= ch < i {
                spec_format_node(t, cm, path.push(ch), c)
            } else {
                (tm(empty_b()), c)
            },
        };
        let is_last = k == n - 1;
        let part = if is_last {
            DocModel::Array(seq![d.0, trailing])
        } else {
            DocModel::Array(seq![d.0, tm(comma_b())])
        };
        let rest = spec_concise_parts(t, cm, path, k + 1, d.1, trailing);
        if is_last {
            (seq![part] + rest.0, rest.1)
        } else {
            (seq![part, DocModel::Line] + rest.0, rest.1)
        }
    }
}

/// The element list of an array-like node: the joined elements, a pattern
/// rest slot appended after a final separator.
pub open spec fn spec_print_elements(
    t: Tree,
    cm: Seq<DanglingComment>,
    path: Seq<usize>,
    c: u32,
) -> (DocModel, u32)
    decreases path[path.len() - 1] as int, 6int, 0int,
{
    let i = path[path.len() - 1] as int;
    let ps = spec_family_parts(t, cm, path, 0, c);
    match family_rest(t, i) {
        Some(r) => if 0 <= r < i {
            let rd = spec_format_node(t, cm, path.push(r), ps.1);
            (DocModel::Array(ps.0 + seq![tm(comma_b()), DocModel::Line, rd.0]), rd.1)
        } else {
            (DocModel::Array(ps.0), ps.1)
        },
        None => (DocModel::Array(ps.0), ps.1),
    }
}

/// The doc of an empty array-like node: plain brackets, or brackets around
/// the dangling comments attached to the span.
pub open spec fn spec_print_empty_array(t: Tree, cm: Seq<DanglingComment>, path: Seq<usize>,
) -> DocModel {
    let i = path[path.len() - 1] as int;
    match spec_comment_for(cm, span_of(t, i)) {
        None => tm(brackets_b()),
        Some(txt) => DocModel::Group {
            parts: seq![
                tm(lbrack_b()),
                DocModel::Indent(seq![tm(txt)]),
                DocModel::SoftLine,
                tm(rbrack_b()),
            ],
            should_break: false,
            id: None,
        },
    }
}

/// The trailing-comma flags of an array-like node: forced after a final
/// hole, suppressed entirely after a final spread, and possible only for
/// array literals.
pub open spec fn spec_trailing_flags(t: Tree, i: int) -> (bool, bool) {
    match kind_of(t, i) {
        NodeKind::ArrayExpression { elements } => {
            if elements@.len() == 0 {
                (false, false)
            } else {
                match elements@[elements@.len() - 1] {
                    ArrayElement::Elision => (true, true),
                    ArrayElement::Item(id) => (
                        false,
                        !(kind_of(t, id as int) matches NodeKind::SpreadElement { .. }),
                    ),
                }
            }
        },
        _ => (false, false),
    }
}

/// The trailing-comma doc itself.
pub open spec fn spec_trailing_doc(
    forced: bool,
    can_have: bool,
    concise: bool,
    id_opt: Option<u32>,
) -> DocModel {
    if !can_have {
        tm(empty_b())
    } else if forced {
        tm(comma_b())
    } else if concise {
        DocModel::IfBreak { break_text: comma_b(), flat_text: empty_b(), group_id: id_opt }
    } else {
        DocModel::IfBreak { break_text: comma_b(), flat_text: empty_b(), group_id: None }
    }
}

/// The doc of an array-like node: a group around bracketed, indented,
/// soft-line-separated elements, with the policy's trailing comma,
/// concise layout and forced break applied.
pub open spec fn spec_print_array(
    t: Tree,
    cm: Seq<DanglingComment>,
    path: Seq<usize>,
    c: u32,
) -> (DocModel, u32)
    decreases path[path.len() - 1] as int, 7int, 0int,
{
    let i = path[path.len() - 1] as int;
    if spec_array_len(t, i) == 0 {
        (spec_print_empty_array(t, cm, path), c)
    } else {
        let flags = spec_trailing_flags(t, i);
        let id_opt: Option<u32> = if c < 0xffff_ffff_u32 {
            Some(c)
        } else {
            None
        };
        let c1: u32 = if c < 0xffff_ffff_u32 {
            (c + 1) as u32
        } else {
            c
        };
        let concise = match array_of(t, i) {
            Some(a) => spec_is_concisely_printed(t, a),
            None => false,
        };
        let sb = match array_of(t, i) {
            Some(a) => spec_should_break(t, a),
            None => false,
        };
        let trailing = spec_trailing_doc(flags.0, flags.1, concise, id_opt);
        let elements = if concise {
            let ps = spec_concise_parts(t, cm, path, 0, c1, trailing);
            (DocModel::Fill(ps.0), ps.1)
        } else {
            let ed = spec_print_elements(t, cm, path, c1);
            (DocModel::Array(seq![ed.0, trailing]), ed.1)
        };
        let parts_inner = match spec_comment_for(cm, span_of(t, i)) {
            Some(txt) => DocModel::Indent(seq![DocModel::SoftLine, elements.0, tm(txt)]),
            None => DocModel::Indent(seq![DocModel::SoftLine, elements.0]),
        };
        (
            DocModel::Group {
                parts: seq![tm(lbrack_b()), parts_inner, DocModel::SoftLine, tm(rbrack_b())],
                should_break: sb,
                id: id_opt,
            },
            elements.1,
        )
    }
}


fn b_comma() -> (v: Vec<u8>)
    ensures
        v@ == comma_b(),
{
    let v: Vec<u8> = vec![44u8];
    proof {
        assert(v@ =~= comma_b());
    }
    v
}

fn b_comma_sp() -> (v: Vec<u8>)
    ensures
        v@ == comma_sp_b(),
{
    let v: Vec<u8> = vec![44u8, 32u8];
    proof {
        assert(v@ =~= comma_sp_b());
    }
    v
}

fn b_lparen() -> (v: Vec<u8>)
    ensures
        v@ == lparen_b(),
{
    let v: Vec<u8> = vec![40u8];
    proof {
        assert(v@ =~= lparen_b());
    }
    v
}

fn b_rparen() -> (v: Vec<u8>)
    ensures
        v@ == rparen_b(),
{
    let v: Vec<u8> = vec![41u8];
    proof {
        assert(v@ =~= rparen_b());
    }
    v
}

fn b_dot() -> (v: Vec<u8>)
    ensures
        v@ == dot_b(),
{
    let v: Vec<u8> = vec![46u8];
    proof {
        assert(v@ =~= dot_b());
    }
    v
}

fn b_spread() -> (v: Vec<u8>)
    ensures
        v@ == spread_b(),
{
    let v: Vec<u8> = vec![46u8, 46u8, 46u8];
    proof {
        assert(v@ =~= spread_b());
    }
    v
}

fn b_new_sp() -> (v: Vec<u8>)
    ensures
        v@ == new_sp_b(),
{
    let v: Vec<u8> = vec![110u8, 101u8, 119u8, 32u8];
    proof {
        assert(v@ =~= new_sp_b());
    }
    v
}

fn b_lbrace() -> (v: Vec<u8>)
    ensures
        v@ == lbrace_b(),
{
    let v: Vec<u8> = vec![123u8];
    proof {
        assert(v@ =~= lbrace_b());
    }
    v
}

fn b_rbrace() -> (v: Vec<u8>)
    ensures
        v@ == rbrace_b(),
{
    let v: Vec<u8> = vec![125u8];
    proof {
        assert(v@ =~= rbrace_b());
    }
    v
}

fn b_braces() -> (v: Vec<u8>)
    ensures
        v@ == braces_b(),
{
    let v: Vec<u8> = vec![123u8, 125u8];
    proof {
        assert(v@ =~= braces_b());
    }
    v
}

fn b_colon_sp() -> (v: Vec<u8>)
    ensures
        v@ == colon_sp_b(),
{
    let v: Vec<u8> = vec![58u8, 32u8];
    proof {
        assert(v@ =~= colon_sp_b());
    }
    v
}

fn b_semi() -> (v: Vec<u8>)
    ensures
        v@ == semi_b(),
{
    let v: Vec<u8> = vec![59u8];
    proof {
        assert(v@ =~= semi_b());
    }
    v
}

fn b_lbrack() -> (v: Vec<u8>)
    ensures
        v@ == lbrack_b(),
{
    let v: Vec<u8> = vec![91u8];
    proof {
        assert(v@ =~= lbrack_b());
    }
    v
}

fn b_rbrack() -> (v: Vec<u8>)
    ensures
        v@ == rbrack_b(),
{
    let v: Vec<u8> = vec![93u8];
    proof {
        assert(v@ =~= rbrack_b());
    }
    v
}

fn b_brackets() -> (v: Vec<u8>)
    ensures
        v@ == brackets_b(),
{
    let v: Vec<u8> = vec![91u8, 93u8];
    proof {
        assert(v@ =~= brackets_b());
    }
    v
}

fn b_empty() -> (v: Vec<u8>)
    ensures
        v@ == empty_b(),
{
    let v: Vec<u8> = Vec::new();
    proof {
        assert(v@ =~= empty_b());
    }
    v
}

/// Copies a byte string.
fn copy_bytes(v: &Vec<u8>) -> (r: Vec<u8>)
    ensures
        r@ == v@,
{
    let mut r: Vec<u8> = Vec::new();
    let mut i: usize = 0;
    while i < v.len()
        invariant
            i <= v@.len(),
            r@ == v@.take(i as int),
        decreases v@.len() - i,
    {
        r.push(v[i]);
        proof {
            assert(v@.take(i as int).push(v@[i as int]) =~= v@.take(i as int + 1));
        }
        i += 1;
    }
    proof {
        assert(v@.take(v@.len() as int) =~= v@);
    }
    r
}

/// A list of docs whose views are known pointwise has `models_of` equal to
/// those views.
proof fn lemma_models_eq(a: DocArena, ids: Seq<usize>, expect: Seq<DocModel>)
    requires
        ids.len() == expect.len(),
        forall|j: int| 0 <= j < ids.len() ==> doc_model(a, ids[j] as int) == expect[j],
    ensures
        models_of(a, ids) == expect,
{
    assert forall|j: int| 0 <= j < ids.len() implies models_of(a, ids)[j] == expect[j] by {
        lemma_models_of_index(a, ids, j);
    }
    assert(models_of(a, ids) =~= expect);
}

proof fn lemma_prefix_trans(a: Seq<DocKind>, b: Seq<DocKind>, c: Seq<DocKind>)
    requires
        a.is_prefix_of(b),
        b.is_prefix_of(c),
    ensures
        a.is_prefix_of(c),
{
    assert(a =~= c.subrange(0, a.len() as int));
}

/// A doc's view survives arena growth.
proof fn lemma_model_still(a0: DocArena, a1: DocArena, d: int, m: DocModel)
    requires
        arena_wf(a0),
        arena_wf(a1),
        a0.docs@.is_prefix_of(a1.docs@),
        0 <= d < a0.docs@.len(),
        doc_model(a0, d) == m,
    ensures
        doc_model(a1, d) == m,
{
    lemma_doc_model_prefix(a0, a1, d);
}

/// The run state is well-formed: both arenas are, and the ancestor path
/// points into the tree.
pub open spec fn pret_wf(p: Prettier) -> bool {
    tree_wf(p.tree) && arena_wf(p.docs) && forall|k: int|
        0 <= k < p.nodes@.len() ==> p.nodes@[k] < p.tree.nodes@.len()
}

/// The parts of the state a formatting step never changes, and the arena
/// only growing.
pub open spec fn same_run(p0: Prettier, p1: Prettier) -> bool {
    p1.tree == p0.tree && p1.comments@ == p0.comments@ && p1.width == p0.width && p1.nodes@
        == p0.nodes@ && p0.docs.docs@.is_prefix_of(p1.docs.docs@)
}

fn id_list_len(t: &Tree, i: usize) -> (n: usize)
    requires
        i < t.nodes@.len(),
    ensures
        n == id_list_of(*t, i as int).len(),
{
    match &t.nodes[i].kind {
        NodeKind::CallExpression { arguments, .. } => arguments.len(),
        NodeKind::NewExpression { arguments, .. } => arguments.len(),
        NodeKind::ObjectExpression { properties } => properties.len(),
        NodeKind::Program { body } => body.len(),
        _ => 0,
    }
}

fn id_list_at(t: &Tree, i: usize, k: usize) -> (c: usize)
    requires
        i < t.nodes@.len(),
        k < id_list_of(*t, i as int).len(),
    ensures
        c == id_list_of(*t, i as int)[k as int],
        tree_wf(*t) ==> c < i,
{
    proof {
        if tree_wf(*t) {
            assert(node_wf(t.nodes@[i as int], i as int));
        }
    }
    match &t.nodes[i].kind {
        NodeKind::CallExpression { arguments, .. } => arguments[k],
        NodeKind::NewExpression { arguments, .. } => arguments[k],
        NodeKind::ObjectExpression { properties } => properties[k],
        NodeKind::Program { body } => body[k],
        _ => 0,
    }
}

fn family_len(t: &Tree, i: usize) -> (n: usize)
    requires
        i < t.nodes@.len(),
    ensures
        n == spec_array_len(*t, i as int),
{
    match &t.nodes[i].kind {
        NodeKind::ArrayExpression { elements } => elements.len(),
        NodeKind::TSTupleType { element_types } => element_types.len(),
        NodeKind::ArrayPattern { elements, .. } => elements.len(),
        NodeKind::ArrayAssignmentTarget { elements, .. } => elements.len(),
        _ => 0,
    }
}

fn family_elem(t: &Tree, i: usize, k: usize) -> (e: ArrayElement)
    requires
        i < t.nodes@.len(),
        k < spec_array_len(*t, i as int),
    ensures
        e == family_elem_at(*t, i as int, k as int),
        tree_wf(*t) ==> (e matches ArrayElement::Item(ch) ==> ch < i),
{
    proof {
        if tree_wf(*t) {
            assert(node_wf(t.nodes@[i as int], i as int));
            match t.nodes@[i as int].kind {
                NodeKind::ArrayExpression { elements } => {
                    assert(crate::syntax::elems_ok(elements@, i as int));
                    assert(crate::syntax::elem_ok(elements@[k as int], i as int));
                },
                NodeKind::TSTupleType { element_types } => {
                    assert(crate::syntax::list_ok(element_types@, i as int));
                },
                NodeKind::ArrayPattern { elements, .. } => {
                    assert(crate::syntax::opt_list_ok(elements@, i as int));
                    assert(crate::syntax::opt_ok(elements@[k as int], i as int));
                },
                NodeKind::ArrayAssignmentTarget { elements, .. } => {
                    assert(crate::syntax::opt_list_ok(elements@, i as int));
                    assert(crate::syntax::opt_ok(elements@[k as int], i as int));
                },
                _ => {},
            }
        }
    }
    match &t.nodes[i].kind {
        NodeKind::ArrayExpression { elements } => elements[k],
        NodeKind::TSTupleType { element_types } => ArrayElement::Item(element_types[k]),
        NodeKind::ArrayPattern { elements, .. } => {
            match elements[k] {
                Some(x) => ArrayElement::Item(x),
                None => ArrayElement::Elision,
            }
        },
        NodeKind::ArrayAssignmentTarget { elements, .. } => {
            match elements[k] {
                Some(x) => ArrayElement::Item(x),
                None => ArrayElement::Elision,
            }
        },
        _ => ArrayElement::Elision,
    }
}

fn family_rest_of(t: &Tree, i: usize) -> (r: Option<usize>)
    requires
        i < t.nodes@.len(),
    ensures
        r == family_rest(*t, i as int),
        tree_wf(*t) ==> (r matches Some(x) ==> x < i),
{
    proof {
        if tree_wf(*t) {
            assert(node_wf(t.nodes@[i as int], i as int));
        }
    }
    match &t.nodes[i].kind {
        NodeKind::ArrayPattern { rest, .. } => *rest,
        NodeKind::ArrayAssignmentTarget { rest, .. } => *rest,
        _ => None,
    }
}

/// The first dangling comment on `span`, rendered as a text doc, wrapped
/// in an indent when asked for; `None` when no comment lies on the span.
pub fn print_dangling_comments(p: &mut Prettier, span: Span, indent: bool) -> (r: Option<usize>)
    requires
        pret_wf(*old(p)),
    ensures
        pret_wf(*final(p)),
        same_run(*old(p), *final(p)),
        final(p).docs.next_id == old(p).docs.next_id,
        (match spec_comment_for(old(p).comments@, span) {
            None => r is None,
            Some(txt) => r matches Some(d) && d < final(p).docs.docs@.len() && doc_model(
                final(p).docs,
                d as int,
            ) == (if indent {
                DocModel::Indent(seq![tm(txt)])
            } else {
                tm(txt)
            }),
        }),
{
    let ghost cm = p.comments@;
    let mut k: usize = 0;
    let n = p.comments.len();
    while k < n
        invariant
            *p == *old(p),
            pret_wf(*p),
            cm == p.comments@,
            n == cm.len(),
            k <= n,
            forall|j: int| 0 <= j < k ==> cm[j].span != span,
        decreases n - k,
    {
        if p.comments[k].span == span {
            proof {
                lemma_comment_skip(cm, span, k as int);
                assert(cm.skip(k as int)[0] == cm[k as int]);
            }
            let txt = copy_bytes(&p.comments[k].text);
            let d = p.docs.text(txt);
            if indent {
                let ghost a1 = p.docs;
                let mut ch: Vec<usize> = Vec::new();
                ch.push(d);
                proof {
                    assert(ch@ =~= seq![d]);
                }
                let w = p.docs.indent(ch);
                proof {
                    lemma_models_eq(a1, seq![d], seq![tm(cm[k as int].text@)]);
                }
                return Some(w);
            }
            return Some(d);
        }
        k += 1;
    }
    proof {
        lemma_comment_skip(cm, span, n as int);
        assert(cm.skip(n as int).len() == 0);
    }
    None
}

proof fn lemma_comment_skip(cm: Seq<DanglingComment>, span: Span, k: int)
    requires
        0 <= k <= cm.len(),
        forall|j: int| 0 <= j < k ==> cm[j].span != span,
    ensures
        spec_comment_for(cm, span) == spec_comment_for(cm.skip(k), span),
    decreases k,
{
    if k > 0 {
        assert(cm.skip(1) =~= cm.drop_first());
        lemma_comment_skip(cm.drop_first(), span, k - 1);
        assert(cm.drop_first().skip(k - 1) =~= cm.skip(k));
    } else {
        assert(cm.skip(0) =~= cm);
    }
}

/// Formats the id-list children of the current node from the start,
/// joined by `sep`; returns the built parts in order.
fn fmt_id_parts(p: &mut Prettier, i: usize, sep: SepKind) -> (parts: Vec<usize>)
    requires
        pret_wf(*old(p)),
        tree_printable(old(p).tree),
        old(p).nodes@.len() >= 1,
        old(p).nodes@.last() == i,
        i < old(p).tree.nodes@.len(),
    ensures
        pret_wf(*final(p)),
        same_run(*old(p), *final(p)),
        parts@.len() == spec_id_parts(
            old(p).tree,
            old(p).comments@,
            old(p).nodes@,
            0,
            old(p).docs.next_id,
            sep,
        ).0.len(),
        final(p).docs.next_id == spec_id_parts(
            old(p).tree,
            old(p).comments@,
            old(p).nodes@,
            0,
            old(p).docs.next_id,
            sep,
        ).1,
        forall|j: int|
            0 <= j < parts@.len() ==> (#[trigger] parts@[j]) < final(p).docs.docs@.len()
                && doc_model(final(p).docs, parts@[j] as int) == spec_id_parts(
                old(p).tree,
                old(p).comments@,
                old(p).nodes@,
                0,
                old(p).docs.next_id,
                sep,
            ).0[j],
    decreases i, 4int, 0int,
{
    let ghost t = p.tree;
    let ghost cm = p.comments@;
    let ghost path = p.nodes@;
    let ghost c0 = p.docs.next_id;
    let mut parts: Vec<usize> = Vec::new();
    let ghost mut expect: Seq<DocModel> = Seq::empty();
    let n = id_list_len(&p.tree, i);
    let mut k: usize = 0;
    proof {
        assert(Seq::<DocModel>::empty() + spec_id_parts(t, cm, path, 0, c0, sep).0 =~= spec_id_parts(
            t,
            cm,
            path,
            0,
            c0,
            sep,
        ).0);
    }
    while k < n
        invariant
            pret_wf(*p),
            tree_printable(t),
            p.tree == t,
            p.comments@ == cm,
            p.nodes@ == path,
            p.width == old(p).width,
            old(p).docs.docs@.is_prefix_of(p.docs.docs@),
            path.len() >= 1,
            path.last() == i,
            i < t.nodes@.len(),
            n == id_list_of(t, i as int).len(),
            k <= n,
            parts@.len() == expect.len(),
            forall|j: int|
                0 <= j < parts@.len() ==> (#[trigger] parts@[j]) < p.docs.docs@.len()
                    && doc_model(p.docs, parts@[j] as int) == expect[j],
            spec_id_parts(t, cm, path, 0, c0, sep).0 == expect + spec_id_parts(
                t,
                cm,
                path,
                k as int,
                p.docs.next_id,
                sep,
            ).0,
            spec_id_parts(t, cm, path, 0, c0, sep).1 == spec_id_parts(
                t,
                cm,
                path,
                k as int,
                p.docs.next_id,
                sep,
            ).1,
        decreases n - k,
    {
        let ghost ccur = p.docs.next_id;
        let ghost a_pre = p.docs;
        let ghost old_expect = expect;
        let ghost old_parts = parts@;
        if k > 0 {
            match sep {
                SepKind::CommaLine => {
                    let s1 = p.docs.text(b_comma());
                    parts.push(s1);
                    let s2 = p.docs.line();
                    parts.push(s2);
                    proof {
                        expect = expect + seq![tm(comma_b()), DocModel::Line];
                    }
                },
                SepKind::CommaSpace => {
                    let s1 = p.docs.text(b_comma_sp());
                    parts.push(s1);
                    proof {
                        expect = expect + seq![tm(comma_sp_b())];
                    }
                },
                SepKind::HardBreak => {
                    let s1 = p.docs.hardline();
                    parts.push(s1);
                    proof {
                        expect = expect + seq![DocModel::HardLine];
                    }
                },
            }
        }
        proof {
            assert forall|j: int| 0 <= j < old_parts.len() implies doc_model(
                p.docs,
                old_parts[j] as int,
            ) == old_expect[j] by {
                lemma_model_still(a_pre, p.docs, old_parts[j] as int, old_expect[j]);
                lemma_prefix_trans(a_pre.docs@, a_pre.docs@, p.docs.docs@);
            }
            lemma_prefix_trans(old(p).docs.docs@, a_pre.docs@, p.docs.docs@);
        }
        let ghost a_mid = p.docs;
        let ghost parts_mid = parts@;
        let ghost expect_mid = expect;
        let ch = id_list_at(&p.tree, i, k);
        let d = format_node(p, ch);
        parts.push(d);
        proof {
            let sd = spec_format_node(t, cm, path.push(ch), ccur);
            expect = expect + seq![sd.0];
            assert forall|j: int| 0 <= j < parts_mid.len() implies doc_model(
                p.docs,
                parts_mid[j] as int,
            ) == expect_mid[j] by {
                lemma_model_still(a_mid, p.docs, parts_mid[j] as int, expect_mid[j]);
            }
            lemma_prefix_trans(old(p).docs.docs@, a_mid.docs@, p.docs.docs@);
            // relate the spec recursion step
            let stepk = spec_id_parts(t, cm, path, k as int, ccur, sep);
            let stepk1 = spec_id_parts(t, cm, path, k as int + 1, sd.1, sep);
            if k > 0 {
                assert(stepk.0 =~= sep_models(sep) + seq![sd.0] + stepk1.0);
                assert(old_expect + stepk.0 =~= expect + stepk1.0);
            } else {
                assert(stepk.0 =~= seq![sd.0] + stepk1.0);
                assert(old_expect + stepk.0 =~= expect + stepk1.0);
            }
        }
        k += 1;
    }
    proof {
        assert(spec_id_parts(t, cm, path, n as int, p.docs.next_id, sep).0 =~= Seq::<
            DocModel,
        >::empty());
        assert(expect + Seq::<DocModel>::empty() =~= expect);
    }
    parts
}

/// Formats the array-family elements of the current node, joined by
/// comma-line pairs; holes print as empty text.
fn fmt_family_parts(p: &mut Prettier, i: usize) -> (parts: Vec<usize>)
    requires
        pret_wf(*old(p)),
        tree_printable(old(p).tree),
        old(p).nodes@.len() >= 1,
        old(p).nodes@.last() == i,
        i < old(p).tree.nodes@.len(),
    ensures
        pret_wf(*final(p)),
        same_run(*old(p), *final(p)),
        parts@.len() == spec_family_parts(
            old(p).tree,
            old(p).comments@,
            old(p).nodes@,
            0,
            old(p).docs.next_id,
        ).0.len(),
        final(p).docs.next_id == spec_family_parts(
            old(p).tree,
            old(p).comments@,
            old(p).nodes@,
            0,
            old(p).docs.next_id,
        ).1,
        forall|j: int|
            0 <= j < parts@.len() ==> (#[trigger] parts@[j]) < final(p).docs.docs@.len()
                && doc_model(final(p).docs, parts@[j] as int) == spec_family_parts(
                old(p).tree,
                old(p).comments@,
                old(p).nodes@,
                0,
                old(p).docs.next_id,
            ).0[j],
    decreases i, 4int, 0int,
{
    let ghost t = p.tree;
    let ghost cm = p.comments@;
    let ghost path = p.nodes@;
    let ghost c0 = p.docs.next_id;
    let mut parts: Vec<usize> = Vec::new();
    let ghost mut expect: Seq<DocModel> = Seq::empty();
    let n = family_len(&p.tree, i);
    let mut k: usize = 0;
    proof {
        assert(Seq::<DocModel>::empty() + spec_family_parts(t, cm, path, 0, c0).0
            =~= spec_family_parts(t, cm, path, 0, c0).0);
    }
    while k < n
        invariant
            pret_wf(*p),
            tree_printable(t),
            p.tree == t,
            p.comments@ == cm,
            p.nodes@ == path,
            p.width == old(p).width,
            old(p).docs.docs@.is_prefix_of(p.docs.docs@),
            path.len() >= 1,
            path.last() == i,
            i < t.nodes@.len(),
            n == spec_array_len(t, i as int),
            k <= n,
            parts@.len() == expect.len(),
            forall|j: int|
                0 <= j < parts@.len() ==> (#[trigger] parts@[j]) < p.docs.docs@.len()
                    && doc_model(p.docs, parts@[j] as int) == expect[j],
            spec_family_parts(t, cm, path, 0, c0).0 == expect + spec_family_parts(
                t,
                cm,
                path,
                k as int,
                p.docs.next_id,
            ).0,
            spec_family_parts(t, cm, path, 0, c0).1 == spec_family_parts(
                t,
                cm,
                path,
                k as int,
                p.docs.next_id,
            ).1,
        decreases n - k,
    {
        let ghost ccur = p.docs.next_id;
        let ghost a_pre = p.docs;
        let ghost old_expect = expect;
        let ghost old_parts = parts@;
        if k > 0 {
            let s1 = p.docs.text(b_comma());
            parts.push(s1);
            let s2 = p.docs.line();
            parts.push(s2);
            proof {
                expect = expect + seq![tm(comma_b()), DocModel::Line];
            }
        }
        proof {
            assert forall|j: int| 0 <= j < old_parts.len() implies doc_model(
                p.docs,
                old_parts[j] as int,
            ) == old_expect[j] by {
                lemma_model_still(a_pre, p.docs, old_parts[j] as int, old_expect[j]);
            }
            lemma_prefix_trans(old(p).docs.docs@, a_pre.docs@, p.docs.docs@);
        }
        let ghost a_mid = p.docs;
        let ghost parts_mid = parts@;
        let ghost expect_mid = expect;
        let e = family_elem(&p.tree, i, k);
        let ghost dm: DocModel;
        let d: usize;
        match e {
            ArrayElement::Elision => {
                d = p.docs.text(b_empty());
                proof {
                    dm = tm(empty_b());
                }
            },
            ArrayElement::Item(ch) => {
                d = format_node(p, ch);
                proof {
                    dm = spec_format_node(t, cm, path.push(ch), ccur).0;
                }
            },
        }
        parts.push(d);
        proof {
            expect = expect + seq![dm];
            assert forall|j: int| 0 <= j < parts_mid.len() implies doc_model(
                p.docs,
                parts_mid[j] as int,
            ) == expect_mid[j] by {
                lemma_model_still(a_mid, p.docs, parts_mid[j] as int, expect_mid[j]);
            }
            lemma_prefix_trans(old(p).docs.docs@, a_mid.docs@, p.docs.docs@);
            let stepk = spec_family_parts(t, cm, path, k as int, ccur);
            let stepk1 = spec_family_parts(t, cm, path, k as int + 1, p.docs.next_id);
            if k > 0 {
                assert(stepk.0 =~= seq![tm(comma_b()), DocModel::Line, dm] + stepk1.0);
                assert(old_expect + stepk.0 =~= expect + stepk1.0);
            } else {
                assert(stepk.0 =~= seq![dm] + stepk1.0);
                assert(old_expect + stepk.0 =~= expect + stepk1.0);
            }
        }
        k += 1;
    }
    proof {
        assert(spec_family_parts(t, cm, path, n as int, p.docs.next_id).0 =~= Seq::<
            DocModel,
        >::empty());
        assert(expect + Seq::<DocModel>::empty() =~= expect);
    }
    parts
}

/// Formats the concise fill parts: each element followed by a comma, the
/// last by the given trailing doc, soft lines between the pairs.
fn fmt_concise_parts(p: &mut Prettier, i: usize, trailing: usize, Ghost(tmodel): Ghost<DocModel>)
    -> (parts: Vec<usize>)
    requires
        pret_wf(*old(p)),
        tree_printable(old(p).tree),
        old(p).nodes@.len() >= 1,
        old(p).nodes@.last() == i,
        i < old(p).tree.nodes@.len(),
        trailing < old(p).docs.docs@.len(),
        doc_model(old(p).docs, trailing as int) == tmodel,
    ensures
        pret_wf(*final(p)),
        same_run(*old(p), *final(p)),
        parts@.len() == spec_concise_parts(
            old(p).tree,
            old(p).comments@,
            old(p).nodes@,
            0,
            old(p).docs.next_id,
            tmodel,
        ).0.len(),
        final(p).docs.next_id == spec_concise_parts(
            old(p).tree,
            old(p).comments@,
            old(p).nodes@,
            0,
            old(p).docs.next_id,
            tmodel,
        ).1,
        forall|j: int|
            0 <= j < parts@.len() ==> (#[trigger] parts@[j]) < final(p).docs.docs@.len()
                && doc_model(final(p).docs, parts@[j] as int) == spec_concise_parts(
                old(p).tree,
                old(p).comments@,
                old(p).nodes@,
                0,
                old(p).docs.next_id,
                tmodel,
            ).0[j],
    decreases i, 4int, 0int,
{
    let ghost t = p.tree;
    let ghost cm = p.comments@;
    let ghost path = p.nodes@;
    let ghost c0 = p.docs.next_id;
    let mut parts: Vec<usize> = Vec::new();
    let ghost mut expect: Seq<DocModel> = Seq::empty();
    let n = family_len(&p.tree, i);
    let mut k: usize = 0;
    proof {
        assert(Seq::<DocModel>::empty() + spec_concise_parts(t, cm, path, 0, c0, tmodel).0
            =~= spec_concise_parts(t, cm, path, 0, c0, tmodel).0);
    }
    while k < n
        invariant
            pret_wf(*p),
            tree_printable(t),
            p.tree == t,
            p.comments@ == cm,
            p.nodes@ == path,
            p.width == old(p).width,
            old(p).docs.docs@.is_prefix_of(p.docs.docs@),
            path.len() >= 1,
            path.last() == i,
            i < t.nodes@.len(),
            n == spec_array_len(t, i as int),
            k <= n,
            trailing < p.docs.docs@.len(),
            doc_model(p.docs, trailing as int) == tmodel,
            parts@.len() == expect.len(),
            forall|j: int|
                0 <= j < parts@.len() ==> (#[trigger] parts@[j]) < p.docs.docs@.len()
                    && doc_model(p.docs, parts@[j] as int) == expect[j],
            spec_concise_parts(t, cm, path, 0, c0, tmodel).0 == expect + spec_concise_parts(
                t,
                cm,
                path,
                k as int,
                p.docs.next_id,
                tmodel,
            ).0,
            spec_concise_parts(t, cm, path, 0, c0, tmodel).1 == spec_concise_parts(
                t,
                cm,
                path,
                k as int,
                p.docs.next_id,
                tmodel,
            ).1,
        decreases n - k,
    {
        let ghost ccur = p.docs.next_id;
        let ghost a_pre = p.docs;
        let ghost old_expect = expect;
        let ghost old_parts = parts@;
        let e = family_elem(&p.tree, i, k);
        let ghost dm: DocModel;
        let d: usize;
        match e {
            ArrayElement::Elision => {
                d = p.docs.text(b_empty());
                proof {
                    dm = tm(empty_b());
                }
            },
            ArrayElement::Item(ch) => {
                d = format_node(p, ch);
                proof {
                    dm = spec_format_node(t, cm, path.push(ch), ccur).0;
                }
            },
        }
        let ghost a_d = p.docs;
        let is_last = k + 1 >= n;
        let ghost mut pm: DocModel;
        let part: usize;
        if is_last {
            let mut pv: Vec<usize> = Vec::new();
            pv.push(d);
            pv.push(trailing);
            proof {
                assert(pv@ =~= seq![d, trailing]);
                lemma_model_still(a_pre, p.docs, trailing as int, tmodel);
            }
            part = p.docs.array(pv);
            proof {
                lemma_models_eq(a_d, seq![d, trailing], seq![dm, tmodel]);
                pm = DocModel::Array(seq![dm, tmodel]);
            }
        } else {
            let cb = p.docs.text(b_comma());
            let ghost a_cb = p.docs;
            let mut pv: Vec<usize> = Vec::new();
            pv.push(d);
            pv.push(cb);
            proof {
                assert(pv@ =~= seq![d, cb]);
                lemma_model_still(a_d, p.docs, d as int, dm);
            }
            part = p.docs.array(pv);
            proof {
                lemma_models_eq(a_cb, seq![d, cb], seq![dm, tm(comma_b())]);
                pm = DocModel::Array(seq![dm, tm(comma_b())]);
            }
        }
        let ghost a_part = p.docs;
        parts.push(part);
        if !is_last {
            let ln = p.docs.line();
            parts.push(ln);
        }
        proof {
            lemma_model_still(a_part, p.docs, part as int, pm);
            if is_last {
                expect = expect + seq![pm];
            } else {
                expect = expect + seq![pm, DocModel::Line];
            }
            assert forall|j: int| 0 <= j < old_parts.len() implies doc_model(
                p.docs,
                old_parts[j] as int,
            ) == old_expect[j] by {
                lemma_model_still(a_pre, p.docs, old_parts[j] as int, old_expect[j]);
            }
            lemma_model_still(a_pre, p.docs, trailing as int, tmodel);
            assert(doc_model(p.docs, part as int) == pm);
            lemma_prefix_trans(old(p).docs.docs@, a_pre.docs@, p.docs.docs@);
            let stepk = spec_concise_parts(t, cm, path, k as int, ccur, tmodel);
            let stepk1 = spec_concise_parts(t, cm, path, k as int + 1, p.docs.next_id, tmodel);
            if is_last {
                assert(stepk.0 =~= seq![pm] + stepk1.0);
                assert(old_expect + stepk.0 =~= expect + stepk1.0);
            } else {
                assert(stepk.0 =~= seq![pm, DocModel::Line] + stepk1.0);
                assert(old_expect + stepk.0 =~= expect + stepk1.0);
            }
        }
        k += 1;
    }
    proof {
        assert(spec_concise_parts(t, cm, path, n as int, p.docs.next_id, tmodel).0 =~= Seq::<
            DocModel,
        >::empty());
        assert(expect + Seq::<DocModel>::empty() =~= expect);
    }
    parts
}


/// The concise layout of an array literal: a fill of element/comma pairs,
/// the last pair carrying the trailing-comma doc.
pub fn print_array_elements_concisely(
    p: &mut Prettier,
    i: usize,
    trailing: usize,
    Ghost(tmodel): Ghost<DocModel>,
) -> (r: usize)
    requires
        pret_wf(*old(p)),
        tree_printable(old(p).tree),
        old(p).nodes@.len() >= 1,
        old(p).nodes@.last() == i,
        i < old(p).tree.nodes@.len(),
        trailing < old(p).docs.docs@.len(),
        doc_model(old(p).docs, trailing as int) == tmodel,
    ensures
        pret_wf(*final(p)),
        same_run(*old(p), *final(p)),
        r < final(p).docs.docs@.len(),
        r == final(p).docs.docs@.len() - 1,
        doc_model(final(p).docs, r as int) == DocModel::Fill(
            spec_concise_parts(
                old(p).tree,
                old(p).comments@,
                old(p).nodes@,
                0,
                old(p).docs.next_id,
                tmodel,
            ).0,
        ),
        final(p).docs.next_id == spec_concise_parts(
            old(p).tree,
            old(p).comments@,
            old(p).nodes@,
            0,
            old(p).docs.next_id,
            tmodel,
        ).1,
    decreases i, 5int, 0int,
{
    let ghost t = p.tree;
    let ghost cm = p.comments@;
    let ghost path = p.nodes@;
    let ghost c0 = p.docs.next_id;
    let parts = fmt_concise_parts(p, i, trailing, Ghost(tmodel));
    let ghost af = p.docs;
    let ghost pvv = parts@;
    let r = p.docs.fill(parts);
    proof {
        let sp = spec_concise_parts(t, cm, path, 0, c0, tmodel);
        lemma_models_eq(af, pvv, sp.0);
        lemma_prefix_trans(old(p).docs.docs@, af.docs@, p.docs.docs@);
    }
    r
}

/// The joined element list of an array-like node, a pattern rest slot
/// appended last.
pub fn print_elements(p: &mut Prettier, i: usize) -> (r: usize)
    requires
        pret_wf(*old(p)),
        tree_printable(old(p).tree),
        old(p).nodes@.len() >= 1,
        old(p).nodes@.last() == i,
        i < old(p).tree.nodes@.len(),
    ensures
        pret_wf(*final(p)),
        same_run(*old(p), *final(p)),
        r < final(p).docs.docs@.len(),
        r == final(p).docs.docs@.len() - 1,
        doc_model(final(p).docs, r as int) == spec_print_elements(
            old(p).tree,
            old(p).comments@,
            old(p).nodes@,
            old(p).docs.next_id,
        ).0,
        final(p).docs.next_id == spec_print_elements(
            old(p).tree,
            old(p).comments@,
            old(p).nodes@,
            old(p).docs.next_id,
        ).1,
    decreases i, 6int, 0int,
{
    let ghost t = p.tree;
    let ghost cm = p.comments@;
    let ghost path = p.nodes@;
    let ghost c0 = p.docs.next_id;
    let ghost ps = spec_family_parts(t, cm, path, 0, c0);
    let mut parts = fmt_family_parts(p, i);
    let ghost a1 = p.docs;
    let ghost mut expect: Seq<DocModel> = ps.0;
    match family_rest_of(&p.tree, i) {
        Some(r0) => {
            let ghost crest = p.docs.next_id;
            let cb = p.docs.text(b_comma());
            let ln = p.docs.line();
            let ghost a2 = p.docs;
            let rd = format_node(p, r0);
            parts.push(cb);
            parts.push(ln);
            parts.push(rd);
            proof {
                let srd = spec_format_node(t, cm, path.push(r0), crest);
                expect = ps.0 + seq![tm(comma_b()), DocModel::Line, srd.0];
                assert forall|j: int| 0 <= j < parts@.len() implies doc_model(
                    p.docs,
                    parts@[j] as int,
                ) == expect[j] by {
                    if j < ps.0.len() {
                        lemma_model_still(a1, p.docs, parts@[j] as int, ps.0[j]);
                    } else if j < ps.0.len() + 2 {
                        lemma_model_still(a2, p.docs, parts@[j] as int, expect[j]);
                    }
                }
                lemma_prefix_trans(old(p).docs.docs@, a1.docs@, p.docs.docs@);
            }
        },
        None => {
        },
    }
    let ghost a3 = p.docs;
    let ghost partsv = parts@;
    proof {
        assert forall|j: int| 0 <= j < partsv.len() implies doc_model(p.docs, partsv[j] as int)
            == expect[j] by {
            if family_rest(t, i as int) is None {
                lemma_model_still(a1, p.docs, partsv[j] as int, expect[j]);
            }
        }
    }
    let r = p.docs.array(parts);
    proof {
        lemma_models_eq(a3, partsv, expect);
        lemma_prefix_trans(old(p).docs.docs@, a3.docs@, p.docs.docs@);
    }
    r
}

/// An empty array-like node: plain brackets, or brackets around the
/// dangling comments on the span.
pub fn print_empty_array_elements(p: &mut Prettier, i: usize) -> (r: usize)
    requires
        pret_wf(*old(p)),
        tree_printable(old(p).tree),
        old(p).nodes@.len() >= 1,
        old(p).nodes@.last() == i,
        i < old(p).tree.nodes@.len(),
    ensures
        pret_wf(*final(p)),
        same_run(*old(p), *final(p)),
        r < final(p).docs.docs@.len(),
        r == final(p).docs.docs@.len() - 1,
        doc_model(final(p).docs, r as int) == spec_print_empty_array(
            old(p).tree,
            old(p).comments@,
            old(p).nodes@,
        ),
        final(p).docs.next_id == old(p).docs.next_id,
    decreases i, 6int, 0int,
{
    let span = p.tree.nodes[i].span;
    match print_dangling_comments(p, span, true) {
        None => {
            let r = p.docs.text(b_brackets());
            r
        },
        Some(cd) => {
            let ghost a_dc = p.docs;
            let ghost txt = (match spec_comment_for(p.comments@, span) {
                Some(x) => x,
                None => empty_b(),
            });
            let ghost cdm = DocModel::Indent(seq![tm(txt)]);
            let lb = p.docs.text(b_lbrack());
            let sl = p.docs.softline();
            let rb = p.docs.text(b_rbrack());
            let ghost a1 = p.docs;
            let mut pv: Vec<usize> = Vec::new();
            pv.push(lb);
            pv.push(cd);
            pv.push(sl);
            pv.push(rb);
            proof {
                assert(pv@ =~= seq![lb, cd, sl, rb]);
                lemma_model_still(a_dc, a1, cd as int, cdm);
            }
            let r = p.docs.group(pv, false, None);
            proof {
                lemma_models_eq(
                    a1,
                    seq![lb, cd, sl, rb],
                    seq![tm(lbrack_b()), cdm, DocModel::SoftLine, tm(rbrack_b())],
                );
                lemma_prefix_trans(old(p).docs.docs@, a1.docs@, p.docs.docs@);
            }
            r
        },
    }
}

/// The array-like print policy: brackets around an indented, soft-broken
/// element list, with the trailing-comma, concise and forced-break rules.
#[verifier::rlimit(100)]
#[verifier::spinoff_prover]
pub fn print_array(p: &mut Prettier, array: &Array) -> (r: usize)
    requires
        pret_wf(*old(p)),
        tree_printable(old(p).tree),
        old(p).nodes@.len() >= 1,
        crate::array::array_matches(old(p).tree, *array),
        old(p).nodes@.last() == array_node(*array),
    ensures
        pret_wf(*final(p)),
        same_run(*old(p), *final(p)),
        r < final(p).docs.docs@.len(),
        r == final(p).docs.docs@.len() - 1,
        doc_model(final(p).docs, r as int) == spec_print_array(
            old(p).tree,
            old(p).comments@,
            old(p).nodes@,
            old(p).docs.next_id,
        ).0,
        final(p).docs.next_id == spec_print_array(
            old(p).tree,
            old(p).comments@,
            old(p).nodes@,
            old(p).docs.next_id,
        ).1,
    decreases array_node(*array), 7int, 0int,
{
    let ghost t = p.tree;
    let ghost cm = p.comments@;
    let ghost path = p.nodes@;
    let ghost c0 = p.docs.next_id;
    let i = match array {
        Array::ArrayExpression(i) => *i,
        Array::TSTupleType(i) => *i,
        Array::ArrayPattern(i) => *i,
        Array::ArrayAssignmentTarget(i) => *i,
    };
    let n = family_len(&p.tree, i);
    if n == 0 {
        let r = print_empty_array_elements(p, i);
        return r;
    }
    proof {
        assert(node_wf(t.nodes@[i as int], i as int));
    }
    let flags: (bool, bool) = match &p.tree.nodes[i].kind {
        NodeKind::ArrayExpression { elements } => {
            proof {
                assert(crate::syntax::elems_ok(elements@, i as int));
                assert(crate::syntax::elem_ok(elements@[elements@.len() - 1], i as int));
            }
            let last = elements[elements.len() - 1];
            match last {
                ArrayElement::Elision => (true, true),
                ArrayElement::Item(id) => {
                    match &p.tree.nodes[id].kind {
                        NodeKind::SpreadElement { .. } => (false, false),
                        _ => (false, true),
                    }
                },
            }
        },
        _ => (false, false),
    };
    let needs_forced = flags.0;
    let can_have = flags.1;
    proof {
        assert(needs_forced == spec_trailing_flags(t, i as int).0);
        assert(can_have == spec_trailing_flags(t, i as int).1);
    }
    let id_opt: Option<u32> = if p.docs.next_id < 0xffff_ffff_u32 {
        let g = p.docs.next_group_id();
        Some(g)
    } else {
        None
    };
    let concise = array.is_concisely_printed(&p.tree);
    let sb = array.should_break(&p.tree);
    proof {
        assert(array_of(t, i as int) == Some(*array));
    }
    let ghost tmodel = spec_trailing_doc(needs_forced, can_have, concise, id_opt);
    let trailing: usize = if !can_have {
        let tr = p.docs.text(b_empty());
        tr
    } else if needs_forced {
        let tr = p.docs.text(b_comma());
        tr
    } else if concise {
        let tr = p.docs.if_break(b_comma(), b_empty(), id_opt);
        tr
    } else {
        let tr = p.docs.if_break(b_comma(), b_empty(), None);
        tr
    };
    proof {
        assert(doc_model(p.docs, trailing as int) == tmodel);
    }
    let ghost c1 = p.docs.next_id;
    let ghost a_tr = p.docs;
    let ed: usize;
    let ghost em: DocModel;
    if concise {
        ed = print_array_elements_concisely(p, i, trailing, Ghost(tmodel));
        proof {
            let sp = spec_concise_parts(t, cm, path, 0, c1, tmodel);
            em = DocModel::Fill(sp.0);
        }
    } else {
        let e0 = print_elements(p, i);
        let ghost sed = spec_print_elements(t, cm, path, c1);
        let ghost a_e0 = p.docs;
        let mut pv: Vec<usize> = Vec::new();
        pv.push(e0);
        pv.push(trailing);
        proof {
            assert(pv@ =~= seq![e0, trailing]);
            lemma_model_still(a_tr, p.docs, trailing as int, tmodel);
        }
        ed = p.docs.array(pv);
        proof {
            lemma_models_eq(a_e0, seq![e0, trailing], seq![sed.0, tmodel]);
            em = DocModel::Array(seq![sed.0, tmodel]);
            lemma_prefix_trans(a_tr.docs@, a_e0.docs@, p.docs.docs@);
        }
    }
    let span = p.tree.nodes[i].span;
    let ghost a_ed = p.docs;
    let cd_opt = print_dangling_comments(p, span, false);
    let ghost a_cd = p.docs;
    let sl1 = p.docs.softline();
    let ghost a_sl = p.docs;
    let inner: usize;
    let ghost im: DocModel;
    match cd_opt {
        Some(cd) => {
            let ghost txt = (match spec_comment_for(cm, span) {
                Some(x) => x,
                None => empty_b(),
            });
            let mut iv: Vec<usize> = Vec::new();
            iv.push(sl1);
            iv.push(ed);
            iv.push(cd);
            proof {
                assert(iv@ =~= seq![sl1, ed, cd]);
                lemma_model_still(a_ed, p.docs, ed as int, em);
                lemma_model_still(a_cd, p.docs, cd as int, tm(txt));
            }
            inner = p.docs.indent(iv);
            proof {
                lemma_models_eq(a_sl, seq![sl1, ed, cd], seq![DocModel::SoftLine, em, tm(txt)]);
                im = DocModel::Indent(seq![DocModel::SoftLine, em, tm(txt)]);
                lemma_prefix_trans(a_ed.docs@, a_sl.docs@, p.docs.docs@);
            }
        },
        None => {
            let mut iv: Vec<usize> = Vec::new();
            iv.push(sl1);
            iv.push(ed);
            proof {
                assert(iv@ =~= seq![sl1, ed]);
                lemma_model_still(a_ed, p.docs, ed as int, em);
            }
            inner = p.docs.indent(iv);
            proof {
                lemma_models_eq(a_sl, seq![sl1, ed], seq![DocModel::SoftLine, em]);
                im = DocModel::Indent(seq![DocModel::SoftLine, em]);
                lemma_prefix_trans(a_ed.docs@, a_sl.docs@, p.docs.docs@);
            }
        },
    }
    let ghost a_in = p.docs;
    let lb = p.docs.text(b_lbrack());
    let sl2 = p.docs.softline();
    let rb = p.docs.text(b_rbrack());
    let ghost a_outer = p.docs;
    let mut gv: Vec<usize> = Vec::new();
    gv.push(lb);
    gv.push(inner);
    gv.push(sl2);
    gv.push(rb);
    proof {
        assert(gv@ =~= seq![lb, inner, sl2, rb]);
        lemma_model_still(a_in, p.docs, inner as int, im);
    }
    let r = p.docs.group(gv, sb, id_opt);
    proof {
        lemma_models_eq(
            a_outer,
            seq![lb, inner, sl2, rb],
            seq![tm(lbrack_b()), im, DocModel::SoftLine, tm(rbrack_b())],
        );
        lemma_prefix_trans(old(p).docs.docs@, a_outer.docs@, p.docs.docs@);
        lemma_prefix_trans(old(p).docs.docs@, a_in.docs@, a_outer.docs@);
    }
    r
}

/// Wraps a built doc in literal parentheses.
fn wrap_parens(p: &mut Prettier, d: usize) -> (r: usize)
    requires
        pret_wf(*old(p)),
        d < old(p).docs.docs@.len(),
    ensures
        pret_wf(*final(p)),
        same_run(*old(p), *final(p)),
        final(p).docs.next_id == old(p).docs.next_id,
        r < final(p).docs.docs@.len(),
        r == final(p).docs.docs@.len() - 1,
        doc_model(final(p).docs, r as int) == DocModel::Array(
            seq![tm(lparen_b()), doc_model(old(p).docs, d as int), tm(rparen_b())],
        ),
{
    let ghost dm = doc_model(p.docs, d as int);
    let ghost a0 = p.docs;
    let lp = p.docs.text(b_lparen());
    let rp = p.docs.text(b_rparen());
    let ghost a1 = p.docs;
    let mut pv: Vec<usize> = Vec::new();
    pv.push(lp);
    pv.push(d);
    pv.push(rp);
    proof {
        assert(pv@ =~= seq![lp, d, rp]);
        lemma_model_still(a0, p.docs, d as int, dm);
    }
    let r = p.docs.array(pv);
    proof {
        lemma_models_eq(a1, seq![lp, d, rp], seq![tm(lparen_b()), dm, tm(rparen_b())]);
        lemma_prefix_trans(a0.docs@, a1.docs@, p.docs.docs@);
    }
    r
}

/// The doc of the current node's own kind, before parenthesization.
#[verifier::rlimit(100)]
#[verifier::spinoff_prover]
fn format_inner(p: &mut Prettier, i: usize) -> (r: usize)
    requires
        pret_wf(*old(p)),
        tree_printable(old(p).tree),
        old(p).nodes@.len() >= 1,
        old(p).nodes@.last() == i,
        i < old(p).tree.nodes@.len(),
    ensures
        pret_wf(*final(p)),
        same_run(*old(p), *final(p)),
        r < final(p).docs.docs@.len(),
        r == final(p).docs.docs@.len() - 1,
        doc_model(final(p).docs, r as int) == spec_format_inner(
            old(p).tree,
            old(p).comments@,
            old(p).nodes@,
            old(p).docs.next_id,
        ).0,
        final(p).docs.next_id == spec_format_inner(
            old(p).tree,
            old(p).comments@,
            old(p).nodes@,
            old(p).docs.next_id,
        ).1,
    decreases i, 8int, 0int,
{
    let ghost t = p.tree;
    let ghost cm = p.comments@;
    let ghost path = p.nodes@;
    let ghost c0 = p.docs.next_id;
    proof {
        assert(node_wf(t.nodes@[i as int], i as int));
    }
    match &p.tree.nodes[i].kind {
        NodeKind::NumberLiteral { raw } => {
            let v = copy_bytes(raw);
            p.docs.text(v)
        },
        NodeKind::StringLiteral { raw } => {
            let v = copy_bytes(raw);
            p.docs.text(v)
        },
        NodeKind::Identifier { name } => {
            let v = copy_bytes(name);
            p.docs.text(v)
        },
        NodeKind::TSTypeReference { name } => {
            let v = copy_bytes(name);
            p.docs.text(v)
        },
        NodeKind::UnaryExpression { operator, argument } => {
            let op = *operator;
            let arg = *argument;
            let d = format_node(p, arg);
            let ghost dm = spec_format_node(t, cm, path.push(arg), c0).0;
            let ghost a1 = p.docs;
            let ov: Vec<u8> = match op {
                UnaryOperator::UnaryPlus => vec![43u8],
                UnaryOperator::UnaryNegation => vec![45u8],
                UnaryOperator::LogicalNot => vec![33u8],
                UnaryOperator::BitwiseNot => vec![126u8],
                UnaryOperator::Typeof => vec![116u8, 121u8, 112u8, 101u8, 111u8, 102u8, 32u8],
                UnaryOperator::Void => vec![118u8, 111u8, 105u8, 100u8, 32u8],
                UnaryOperator::Delete => vec![100u8, 101u8, 108u8, 101u8, 116u8, 101u8, 32u8],
            };
            proof {
                assert(ov@ =~= unary_op_b(op));
            }
            let od = p.docs.text(ov);
            let ghost a2 = p.docs;
            let mut pv: Vec<usize> = Vec::new();
            pv.push(od);
            pv.push(d);
            proof {
                assert(pv@ =~= seq![od, d]);
                lemma_model_still(a1, p.docs, d as int, dm);
            }
            let r = p.docs.array(pv);
            proof {
                lemma_models_eq(a2, seq![od, d], seq![tm(unary_op_b(op)), dm]);
                lemma_prefix_trans(a1.docs@, a2.docs@, p.docs.docs@);
            }
            r
        },
        NodeKind::UpdateExpression { operator, prefix, argument } => {
            let op = *operator;
            let pre = *prefix;
            let arg = *argument;
            let d = format_node(p, arg);
            let ghost dm = spec_format_node(t, cm, path.push(arg), c0).0;
            let ghost a1 = p.docs;
            let ov: Vec<u8> = match op {
                UpdateOperator::Increment => vec![43u8, 43u8],
                UpdateOperator::Decrement => vec![45u8, 45u8],
            };
            proof {
                assert(ov@ =~= update_op_b(op));
            }
            let od = p.docs.text(ov);
            let ghost a2 = p.docs;
            let mut pv: Vec<usize> = Vec::new();
            if pre {
                pv.push(od);
                pv.push(d);
            } else {
                pv.push(d);
                pv.push(od);
            }
            proof {
                if pre {
                    assert(pv@ =~= seq![od, d]);
                } else {
                    assert(pv@ =~= seq![d, od]);
                }
                lemma_model_still(a1, p.docs, d as int, dm);
            }
            let r = p.docs.array(pv);
            proof {
                if pre {
                    lemma_models_eq(a2, seq![od, d], seq![tm(update_op_b(op)), dm]);
                } else {
                    lemma_models_eq(a2, seq![d, od], seq![dm, tm(update_op_b(op))]);
                }
                lemma_prefix_trans(a1.docs@, a2.docs@, p.docs.docs@);
            }
            r
        },
        NodeKind::SpreadElement { argument } => {
            let arg = *argument;
            let sd = p.docs.text(b_spread());
            let ghost a1 = p.docs;
            let d = format_node(p, arg);
            let ghost dm = spec_format_node(t, cm, path.push(arg), c0).0;
            let ghost a2 = p.docs;
            let mut pv: Vec<usize> = Vec::new();
            pv.push(sd);
            pv.push(d);
            proof {
                assert(pv@ =~= seq![sd, d]);
                lemma_model_still(a1, p.docs, sd as int, tm(spread_b()));
            }
            let r = p.docs.array(pv);
            proof {
                lemma_models_eq(a2, seq![sd, d], seq![tm(spread_b()), dm]);
                lemma_prefix_trans(a1.docs@, a2.docs@, p.docs.docs@);
            }
            r
        },
        NodeKind::MemberExpression { object, property } => {
            let obj = *object;
            let prop = copy_bytes(property);
            let ghost propv = prop@;
            let d = format_node(p, obj);
            let ghost dm = spec_format_node(t, cm, path.push(obj), c0).0;
            let ghost a1 = p.docs;
            let dd = p.docs.text(b_dot());
            let pd = p.docs.text(prop);
            let ghost a2 = p.docs;
            let mut pv: Vec<usize> = Vec::new();
            pv.push(d);
            pv.push(dd);
            pv.push(pd);
            proof {
                assert(pv@ =~= seq![d, dd, pd]);
                lemma_model_still(a1, p.docs, d as int, dm);
            }
            let r = p.docs.array(pv);
            proof {
                lemma_models_eq(a2, seq![d, dd, pd], seq![dm, tm(dot_b()), tm(propv)]);
                lemma_prefix_trans(a1.docs@, a2.docs@, p.docs.docs@);
            }
            r
        },
        NodeKind::CallExpression { callee, .. } => {
            let cal = *callee;
            let d = format_node(p, cal);
            let ghost dm = spec_format_node(t, cm, path.push(cal), c0).0;
            let ghost a1 = p.docs;
            let ghost c1 = p.docs.next_id;
            let args = fmt_id_parts(p, i, SepKind::CommaSpace);
            let ghost sps = spec_id_parts(t, cm, path, 0, c1, SepKind::CommaSpace);
            let ghost a2 = p.docs;
            let lp = p.docs.text(b_lparen());
            let rp = p.docs.text(b_rparen());
            let ghost a3 = p.docs;
            let mut pv: Vec<usize> = Vec::new();
            pv.push(d);
            pv.push(lp);
            let mut j: usize = 0;
            while j < args.len()
                invariant
                    j <= args@.len(),
                    pv@ == seq![d, lp] + args@.take(j as int),
                decreases args@.len() - j,
            {
                pv.push(args[j]);
                proof {
                    assert((seq![d, lp] + args@.take(j as int)).push(args@[j as int]) =~= seq![
                        d,
                        lp,
                    ] + args@.take(j as int + 1));
                }
                j += 1;
            }
            proof {
                assert(args@.take(args@.len() as int) =~= args@);
            }
            pv.push(rp);
            let ghost expect = seq![dm, tm(lparen_b())] + sps.0 + seq![tm(rparen_b())];
            proof {
                assert(pv@ =~= seq![d, lp] + args@ + seq![rp]);
                assert forall|j2: int| 0 <= j2 < pv@.len() implies doc_model(
                    p.docs,
                    pv@[j2] as int,
                ) == expect[j2] by {
                    if j2 == 0 {
                        lemma_model_still(a1, p.docs, d as int, dm);
                        lemma_prefix_trans(a1.docs@, a2.docs@, p.docs.docs@);
                    } else if j2 >= 2 && j2 < 2 + sps.0.len() {
                        lemma_model_still(a2, p.docs, args@[j2 - 2] as int, sps.0[j2 - 2]);
                    }
                }
            }
            let r = p.docs.array(pv);
            proof {
                lemma_models_eq(a3, seq![d, lp] + args@ + seq![rp], expect);
                lemma_prefix_trans(a1.docs@, a2.docs@, p.docs.docs@);
                lemma_prefix_trans(a1.docs@, a3.docs@, p.docs.docs@);
            }
            r
        },
        NodeKind::NewExpression { callee, .. } => {
            let cal = *callee;
            let nd = p.docs.text(b_new_sp());
            let ghost a0 = p.docs;
            let d = format_node(p, cal);
            let ghost dm = spec_format_node(t, cm, path.push(cal), c0).0;
            let ghost a1 = p.docs;
            let ghost c1 = p.docs.next_id;
            let args = fmt_id_parts(p, i, SepKind::CommaSpace);
            let ghost sps = spec_id_parts(t, cm, path, 0, c1, SepKind::CommaSpace);
            let ghost a2 = p.docs;
            let lp = p.docs.text(b_lparen());
            let rp = p.docs.text(b_rparen());
            let ghost a3 = p.docs;
            let mut pv: Vec<usize> = Vec::new();
            pv.push(nd);
            pv.push(d);
            pv.push(lp);
            let mut j: usize = 0;
            while j < args.len()
                invariant
                    j <= args@.len(),
                    pv@ == seq![nd, d, lp] + args@.take(j as int),
                decreases args@.len() - j,
            {
                pv.push(args[j]);
                proof {
                    assert((seq![nd, d, lp] + args@.take(j as int)).push(args@[j as int]) =~= seq![
                        nd,
                        d,
                        lp,
                    ] + args@.take(j as int + 1));
                }
                j += 1;
            }
            proof {
                assert(args@.take(args@.len() as int) =~= args@);
            }
            pv.push(rp);
            let ghost expect = seq![tm(new_sp_b()), dm, tm(lparen_b())] + sps.0 + seq![
                tm(rparen_b()),
            ];
            proof {
                assert(pv@ =~= seq![nd, d, lp] + args@ + seq![rp]);
                assert forall|j2: int| 0 <= j2 < pv@.len() implies doc_model(
                    p.docs,
                    pv@[j2] as int,
                ) == expect[j2] by {
                    if j2 == 0 {
                        lemma_model_still(a0, p.docs, nd as int, tm(new_sp_b()));
                        lemma_prefix_trans(a0.docs@, a1.docs@, p.docs.docs@);
                        lemma_prefix_trans(a0.docs@, a2.docs@, p.docs.docs@);
                    } else if j2 == 1 {
                        lemma_model_still(a1, p.docs, d as int, dm);
                        lemma_prefix_trans(a1.docs@, a2.docs@, p.docs.docs@);
                    } else if j2 >= 3 && j2 < 3 + sps.0.len() {
                        lemma_model_still(a2, p.docs, args@[j2 - 3] as int, sps.0[j2 - 3]);
                    }
                }
            }
            let r = p.docs.array(pv);
            proof {
                lemma_models_eq(a3, seq![nd, d, lp] + args@ + seq![rp], expect);
                lemma_prefix_trans(a0.docs@, a3.docs@, p.docs.docs@);
            }
            r
        },
        NodeKind::ObjectExpression { properties } => {
            let nprops = properties.len();
            if nprops == 0 {
                let r = p.docs.text(b_braces());
                r
            } else {
                let props = fmt_id_parts(p, i, SepKind::CommaLine);
                let ghost sps = spec_id_parts(t, cm, path, 0, c0, SepKind::CommaLine);
                let ghost a1 = p.docs;
                let l1 = p.docs.line();
                let ghost a2 = p.docs;
                let mut iv: Vec<usize> = Vec::new();
                iv.push(l1);
                let mut j: usize = 0;
                while j < props.len()
                    invariant
                        j <= props@.len(),
                        iv@ == seq![l1] + props@.take(j as int),
                    decreases props@.len() - j,
                {
                    iv.push(props[j]);
                    proof {
                        assert((seq![l1] + props@.take(j as int)).push(props@[j as int]) =~= seq![
                            l1,
                        ] + props@.take(j as int + 1));
                    }
                    j += 1;
                }
                proof {
                    assert(props@.take(props@.len() as int) =~= props@);
                }
                let ghost iexpect = seq![DocModel::Line] + sps.0;
                proof {
                    assert(iv@ =~= seq![l1] + props@);
                    assert forall|j2: int| 0 <= j2 < iv@.len() implies doc_model(
                        p.docs,
                        iv@[j2] as int,
                    ) == iexpect[j2] by {
                        if j2 >= 1 {
                            lemma_model_still(a1, p.docs, props@[j2 - 1] as int, sps.0[j2 - 1]);
                        }
                    }
                }
                let ind = p.docs.indent(iv);
                let ghost im = DocModel::Indent(iexpect);
                proof {
                    lemma_models_eq(a2, seq![l1] + props@, iexpect);
                }
                let ghost a3 = p.docs;
                let ob = p.docs.text(b_lbrace());
                let l2 = p.docs.line();
                let cb = p.docs.text(b_rbrace());
                let ghost a4 = p.docs;
                let mut gv: Vec<usize> = Vec::new();
                gv.push(ob);
                gv.push(ind);
                gv.push(l2);
                gv.push(cb);
                proof {
                    assert(gv@ =~= seq![ob, ind, l2, cb]);
                    lemma_model_still(a3, p.docs, ind as int, im);
                }
                let r = p.docs.group(gv, false, None);
                proof {
                    lemma_models_eq(
                        a4,
                        seq![ob, ind, l2, cb],
                        seq![tm(lbrace_b()), im, DocModel::Line, tm(rbrace_b())],
                    );
                    lemma_prefix_trans(a1.docs@, a3.docs@, p.docs.docs@);
                    lemma_prefix_trans(a1.docs@, a4.docs@, p.docs.docs@);
                }
                r
            }
        },
        NodeKind::ObjectProperty { key, value } => {
            let k0 = *key;
            let v0 = *value;
            let kd = format_node(p, k0);
            let ghost km = spec_format_node(t, cm, path.push(k0), c0).0;
            let ghost ck = p.docs.next_id;
            let ghost a1 = p.docs;
            let vd = format_node(p, v0);
            let ghost vm = spec_format_node(t, cm, path.push(v0), ck).0;
            let ghost a2 = p.docs;
            let cs = p.docs.text(b_colon_sp());
            let ghost a3 = p.docs;
            let mut pv: Vec<usize> = Vec::new();
            pv.push(kd);
            pv.push(cs);
            pv.push(vd);
            proof {
                assert(pv@ =~= seq![kd, cs, vd]);
                lemma_model_still(a1, p.docs, kd as int, km);
                lemma_model_still(a2, p.docs, vd as int, vm);
                lemma_prefix_trans(a1.docs@, a2.docs@, p.docs.docs@);
            }
            let r = p.docs.array(pv);
            proof {
                lemma_models_eq(a3, seq![kd, cs, vd], seq![km, tm(colon_sp_b()), vm]);
                lemma_prefix_trans(a1.docs@, a3.docs@, p.docs.docs@);
            }
            r
        },
        NodeKind::ArrayExpression { .. } => {
            let a = Array::ArrayExpression(i);
            print_array(p, &a)
        },
        NodeKind::TSTupleType { .. } => {
            let a = Array::TSTupleType(i);
            print_array(p, &a)
        },
        NodeKind::ArrayPattern { .. } => {
            let a = Array::ArrayPattern(i);
            print_array(p, &a)
        },
        NodeKind::ArrayAssignmentTarget { .. } => {
            let a = Array::ArrayAssignmentTarget(i);
            print_array(p, &a)
        },
        NodeKind::ExpressionStatement { expression } => {
            let e0 = *expression;
            let d = format_node(p, e0);
            let ghost dm = spec_format_node(t, cm, path.push(e0), c0).0;
            let ghost a1 = p.docs;
            let sd = p.docs.text(b_semi());
            let ghost a2 = p.docs;
            let mut pv: Vec<usize> = Vec::new();
            pv.push(d);
            pv.push(sd);
            proof {
                assert(pv@ =~= seq![d, sd]);
                lemma_model_still(a1, p.docs, d as int, dm);
            }
            let r = p.docs.array(pv);
            proof {
                lemma_models_eq(a2, seq![d, sd], seq![dm, tm(semi_b())]);
                lemma_prefix_trans(a1.docs@, a2.docs@, p.docs.docs@);
            }
            r
        },
        NodeKind::Program { .. } => {
            let stmts = fmt_id_parts(p, i, SepKind::HardBreak);
            let ghost sps = spec_id_parts(t, cm, path, 0, c0, SepKind::HardBreak);
            let ghost a1 = p.docs;
            let ghost sv = stmts@;
            let r = p.docs.array(stmts);
            proof {
                lemma_models_eq(a1, sv, sps.0);
            }
            r
        },
        _ => {
            proof {
                assert(printable_kind(t.nodes@[i as int].kind));
                assert(false);
            }
            let r = p.docs.text(b_empty());
            r
        },
    }
}

/// Formats the node `i` in the context of the current path: its own doc,
/// wrapped in parentheses when the analysis requires it. The ancestor
/// path gains `i` for the duration of the call and is restored.
pub fn format_node(p: &mut Prettier, i: usize) -> (r: usize)
    requires
        pret_wf(*old(p)),
        tree_printable(old(p).tree),
        i < old(p).tree.nodes@.len(),
    ensures
        pret_wf(*final(p)),
        same_run(*old(p), *final(p)),
        r < final(p).docs.docs@.len(),
        r == final(p).docs.docs@.len() - 1,
        doc_model(final(p).docs, r as int) == spec_format_node(
            old(p).tree,
            old(p).comments@,
            old(p).nodes@.push(i),
            old(p).docs.next_id,
        ).0,
        final(p).docs.next_id == spec_format_node(
            old(p).tree,
            old(p).comments@,
            old(p).nodes@.push(i),
            old(p).docs.next_id,
        ).1,
    decreases i, 9int, 0int,
{
    let ghost t = p.tree;
    let ghost cm = p.comments@;
    let ghost path0 = p.nodes@;
    let ghost c0 = p.docs.next_id;
    p.nodes.push(i);
    let inner = format_inner(p, i);
    let ghost im = spec_format_inner(t, cm, path0.push(i), c0).0;
    let needs = need_parens(&p.tree, &p.nodes);
    let r = if needs {
        wrap_parens(p, inner)
    } else {
        inner
    };
    let _ = p.nodes.pop();
    proof {
        assert(p.nodes@ =~= path0);
    }
    r
}

impl Prettier {
    /// Starts a formatting run over a tree, with the dangling comments the
    /// comment-attachment pass produced and the target line width.
    pub fn new(tree: Tree, comments: Vec<DanglingComment>, width: usize) -> (p: Prettier)
        requires
            tree_wf(tree),
        ensures
            pret_wf(p),
            p.tree == tree,
            p.comments@ == comments@,
            p.width == width,
            p.nodes@.len() == 0,
            p.docs.docs@.len() == 0,
            p.docs.next_id == 0,
    {
        Prettier { tree, nodes: Vec::new(), docs: DocArena::new(), comments, width }
    }
}

/// Builds the doc of the tree's root node (the last node of the arena).
pub fn format_doc(p: &mut Prettier) -> (r: usize)
    requires
        pret_wf(*old(p)),
        tree_printable(old(p).tree),
        old(p).nodes@.len() == 0,
        old(p).tree.nodes@.len() >= 1,
    ensures
        pret_wf(*final(p)),
        same_run(*old(p), *final(p)),
        r < final(p).docs.docs@.len(),
        r == final(p).docs.docs@.len() - 1,
        doc_model(final(p).docs, r as int) == spec_format_node(
            old(p).tree,
            old(p).comments@,
            seq![(old(p).tree.nodes@.len() - 1) as usize],
            old(p).docs.next_id,
        ).0,
        final(p).docs.next_id == spec_format_node(
            old(p).tree,
            old(p).comments@,
            seq![(old(p).tree.nodes@.len() - 1) as usize],
            old(p).docs.next_id,
        ).1,
{
    let root = p.tree.nodes.len() - 1;
    let r = format_node(p, root);
    proof {
        assert(old(p).nodes@.push(root) =~= seq![root]);
    }
    r
}

/// Formats the whole tree: builds the root doc — the last entry of the
/// final doc arena, whose view is the specification-level doc of the
/// tree's root node — and renders it at the configured width; the output
/// is exactly the specification-level rendering of that doc.
pub fn format(p: &mut Prettier) -> (out: Vec<u8>)
    requires
        pret_wf(*old(p)),
        tree_printable(old(p).tree),
        old(p).nodes@.len() == 0,
        old(p).tree.nodes@.len() >= 1,
    ensures
        pret_wf(*final(p)),
        same_run(*old(p), *final(p)),
        final(p).docs.docs@.len() >= 1,
        doc_model(final(p).docs, final(p).docs.docs@.len() - 1) == spec_format_node(
            old(p).tree,
            old(p).comments@,
            seq![(old(p).tree.nodes@.len() - 1) as usize],
            old(p).docs.next_id,
        ).0,
        out@ == crate::printer::spec_print(
            final(p).docs,
            final(p).docs.docs@.len() - 1,
            old(p).width,
        ),
{
    let r = format_doc(p);
    let w = p.width;
    crate::printer::print(&p.docs, r, w)
}

/// A text doc is scoped anywhere and names nothing.
proof fn lemma_text_ids(s: Seq<u8>, env: Set<u32>)
    ensures
        model_scoped(tm(s), env),
        forall|g: u32| !model_refs(tm(s), g),
{
}

/// Lifts pointwise scoping and reference bounds to a concatenation doc.
proof fn lemma_array_ids(parts: Seq<DocModel>, env: Set<u32>, lo: u32, hi: u32)
    requires
        forall|j: int| 0 <= j < parts.len() ==> model_scoped(#[trigger] parts[j], env),
        forall|j: int, g: u32|
            0 <= j < parts.len() && #[trigger] model_refs(parts[j], g) ==> lo <= g < hi,
    ensures
        model_scoped(DocModel::Array(parts), env),
        forall|g: u32| model_refs(DocModel::Array(parts), g) ==> lo <= g < hi,
{
    assert forall|g: u32| model_refs(DocModel::Array(parts), g) implies lo <= g < hi by {
        let j = choose|j: int| 0 <= j < parts.len() && model_refs(#[trigger] parts[j], g);
        assert(model_refs(parts[j], g));
    }
}

/// The same, for an indentation doc.
proof fn lemma_indent_ids(parts: Seq<DocModel>, env: Set<u32>, lo: u32, hi: u32)
    requires
        forall|j: int| 0 <= j < parts.len() ==> model_scoped(#[trigger] parts[j], env),
        forall|j: int, g: u32|
            0 <= j < parts.len() && #[trigger] model_refs(parts[j], g) ==> lo <= g < hi,
    ensures
        model_scoped(DocModel::Indent(parts), env),
        forall|g: u32| model_refs(DocModel::Indent(parts), g) ==> lo <= g < hi,
{
    assert forall|g: u32| model_refs(DocModel::Indent(parts), g) implies lo <= g < hi by {
        let j = choose|j: int| 0 <= j < parts.len() && model_refs(#[trigger] parts[j], g);
        assert(model_refs(parts[j], g));
    }
}

/// The same, for a fill doc.
proof fn lemma_fill_ids(parts: Seq<DocModel>, env: Set<u32>, lo: u32, hi: u32)
    requires
        forall|j: int| 0 <= j < parts.len() ==> model_scoped(#[trigger] parts[j], env),
        forall|j: int, g: u32|
            0 <= j < parts.len() && #[trigger] model_refs(parts[j], g) ==> lo <= g < hi,
    ensures
        model_scoped(DocModel::Fill(parts), env),
        forall|g: u32| model_refs(DocModel::Fill(parts), g) ==> lo <= g < hi,
{
    assert forall|g: u32| model_refs(DocModel::Fill(parts), g) implies lo <= g < hi by {
        let j = choose|j: int| 0 <= j < parts.len() && model_refs(#[trigger] parts[j], g);
        assert(model_refs(parts[j], g));
    }
}

/// The same, for a group: the group's own identifier joins the scope of
/// its parts.
proof fn lemma_group_ids(
    parts: Seq<DocModel>,
    sb: bool,
    id: Option<u32>,
    env: Set<u32>,
    lo: u32,
    hi: u32,
)
    requires
        forall|j: int|
            0 <= j < parts.len() ==> model_scoped(
                #[trigger] parts[j],
                (match id {
                    Some(g) => env.insert(g),
                    None => env,
                }),
            ),
        forall|j: int, g: u32|
            0 <= j < parts.len() && #[trigger] model_refs(parts[j], g) ==> lo <= g < hi,
    ensures
        model_scoped(DocModel::Group { parts, should_break: sb, id }, env),
        forall|g: u32|
            model_refs(DocModel::Group { parts, should_break: sb, id }, g) ==> lo <= g < hi,
{
    assert forall|g: u32|
        model_refs(DocModel::Group { parts, should_break: sb, id }, g) implies lo <= g < hi by {
        let j = choose|j: int| 0 <= j < parts.len() && model_refs(#[trigger] parts[j], g);
        assert(model_refs(parts[j], g));
    }
}

/// The docs the driver specifies are well scoped under any environment:
/// every conditional text names only an enclosing group's identifier.
/// Moreover every named identifier was handed out during the node's own
/// construction — it lies in `[c, c')` for the counter values before and
/// after — so no doc ever names a sibling group's identifier, and the
/// counter never moves backwards.
pub proof fn lemma_format_node_ids(
    t: Tree,
    cm: Seq<DanglingComment>,
    path: Seq<usize>,
    c: u32,
    env: Set<u32>,
)
    ensures
        ({
            let s = spec_format_node(t, cm, path, c);
            model_scoped(s.0, env) && c <= s.1 && forall|g: u32|
                model_refs(s.0, g) ==> c <= g < s.1
        }),
    decreases path[path.len() - 1] as int, 9int, 0int,
{
    lemma_format_inner_ids(t, cm, path, c, env);
    let inr = spec_format_inner(t, cm, path, c);
    if spec_need_parens(t, path) {
        let parts = seq![tm(lparen_b()), inr.0, tm(rparen_b())];
        assert forall|j: int| 0 <= j < parts.len() implies model_scoped(
            #[trigger] parts[j],
            env,
        ) by {
            lemma_text_ids(lparen_b(), env);
            lemma_text_ids(rparen_b(), env);
        }
        assert forall|j: int, g: u32|
            0 <= j < parts.len() && #[trigger] model_refs(parts[j], g) implies c <= g
            < inr.1 by {
            lemma_text_ids(lparen_b(), env);
            lemma_text_ids(rparen_b(), env);
        }
        lemma_array_ids(parts, env, c, inr.1);
    }
}

proof fn lemma_format_inner_ids(
    t: Tree,
    cm: Seq<DanglingComment>,
    path: Seq<usize>,
    c: u32,
    env: Set<u32>,
)
    ensures
        ({
            let s = spec_format_inner(t, cm, path, c);
            model_scoped(s.0, env) && c <= s.1 && forall|g: u32|
                model_refs(s.0, g) ==> c <= g < s.1
        }),
    decreases path[path.len() - 1] as int, 8int, 0int,
{
    let i = path[path.len() - 1] as int;
    let s = spec_format_inner(t, cm, path, c);
    match kind_of(t, i) {
        NodeKind::UnaryExpression { operator, argument } => {
            if 0 <= argument < i {
                lemma_format_node_ids(t, cm, path.push(argument), c, env);
                let d = spec_format_node(t, cm, path.push(argument), c);
                let parts = seq![tm(unary_op_b(operator)), d.0];
                assert forall|j: int| 0 <= j < parts.len() implies model_scoped(
                    #[trigger] parts[j],
                    env,
                ) by {
                    lemma_text_ids(unary_op_b(operator), env);
                }
                assert forall|j: int, g: u32|
                    0 <= j < parts.len() && #[trigger] model_refs(parts[j], g) implies c <= g
                    < d.1 by {
                    lemma_text_ids(unary_op_b(operator), env);
                }
                lemma_array_ids(parts, env, c, d.1);
            }
        },
        NodeKind::UpdateExpression { operator, prefix, argument } => {
            if 0 <= argument < i {
                lemma_format_node_ids(t, cm, path.push(argument), c, env);
                let d = spec_format_node(t, cm, path.push(argument), c);
                let parts = if prefix {
                    seq![tm(update_op_b(operator)), d.0]
                } else {
                    seq![d.0, tm(update_op_b(operator))]
                };
                assert forall|j: int| 0 <= j < parts.len() implies model_scoped(
                    #[trigger] parts[j],
                    env,
                ) by {
                    lemma_text_ids(update_op_b(operator), env);
                }
                assert forall|j: int, g: u32|
                    0 <= j < parts.len() && #[trigger] model_refs(parts[j], g) implies c <= g
                    < d.1 by {
                    lemma_text_ids(update_op_b(operator), env);
                }
                lemma_array_ids(parts, env, c, d.1);
            }
        },
        NodeKind::SpreadElement { argument } => {
            if 0 <= argument < i {
                lemma_format_node_ids(t, cm, path.push(argument), c, env);
                let d = spec_format_node(t, cm, path.push(argument), c);
                let parts = seq![tm(spread_b()), d.0];
                assert forall|j: int| 0 <= j < parts.len() implies model_scoped(
                    #[trigger] parts[j],
                    env,
                ) by {
                    lemma_text_ids(spread_b(), env);
                }
                assert forall|j: int, g: u32|
                    0 <= j < parts.len() && #[trigger] model_refs(parts[j], g) implies c <= g
                    < d.1 by {
                    lemma_text_ids(spread_b(), env);
                }
                lemma_array_ids(parts, env, c, d.1);
            }
        },
        NodeKind::MemberExpression { object, property } => {
            if 0 <= object < i {
                lemma_format_node_ids(t, cm, path.push(object), c, env);
                let d = spec_format_node(t, cm, path.push(object), c);
                let parts = seq![d.0, tm(dot_b()), tm(property@)];
                assert forall|j: int| 0 <= j < parts.len() implies model_scoped(
                    #[trigger] parts[j],
                    env,
                ) by {
                    lemma_text_ids(dot_b(), env);
                    lemma_text_ids(property@, env);
                }
                assert forall|j: int, g: u32|
                    0 <= j < parts.len() && #[trigger] model_refs(parts[j], g) implies c <= g
                    < d.1 by {
                    lemma_text_ids(dot_b(), env);
                    lemma_text_ids(property@, env);
                }
                lemma_array_ids(parts, env, c, d.1);
            }
        },
        NodeKind::CallExpression { callee, .. } => {
            if 0 <= callee < i {
                lemma_format_node_ids(t, cm, path.push(callee), c, env);
                let d = spec_format_node(t, cm, path.push(callee), c);
                lemma_id_parts_ids(t, cm, path, 0, d.1, SepKind::CommaSpace, env);
                let ps = spec_id_parts(t, cm, path, 0, d.1, SepKind::CommaSpace);
                let parts = seq![d.0, tm(lparen_b())] + ps.0 + seq![tm(rparen_b())];
                assert forall|j: int| 0 <= j < parts.len() implies model_scoped(
                    #[trigger] parts[j],
                    env,
                ) by {
                    lemma_text_ids(lparen_b(), env);
                    lemma_text_ids(rparen_b(), env);
                    if 2 <= j < 2 + ps.0.len() {
                        assert(parts[j] == ps.0[j - 2]);
                    }
                }
                assert forall|j: int, g: u32|
                    0 <= j < parts.len() && #[trigger] model_refs(parts[j], g) implies c <= g
                    < ps.1 by {
                    lemma_text_ids(lparen_b(), env);
                    lemma_text_ids(rparen_b(), env);
                    if 2 <= j < 2 + ps.0.len() {
                        assert(parts[j] == ps.0[j - 2]);
                    }
                }
                lemma_array_ids(parts, env, c, ps.1);
            }
        },
        NodeKind::NewExpression { callee, .. } => {
            if 0 <= callee < i {
                lemma_format_node_ids(t, cm, path.push(callee), c, env);
                let d = spec_format_node(t, cm, path.push(callee), c);
                lemma_id_parts_ids(t, cm, path, 0, d.1, SepKind::CommaSpace, env);
                let ps = spec_id_parts(t, cm, path, 0, d.1, SepKind::CommaSpace);
                let parts = seq![tm(new_sp_b()), d.0, tm(lparen_b())] + ps.0 + seq![
                    tm(rparen_b()),
                ];
                assert forall|j: int| 0 <= j < parts.len() implies model_scoped(
                    #[trigger] parts[j],
                    env,
                ) by {
                    lemma_text_ids(new_sp_b(), env);
                    lemma_text_ids(lparen_b(), env);
                    lemma_text_ids(rparen_b(), env);
                    if 3 <= j < 3 + ps.0.len() {
                        assert(parts[j] == ps.0[j - 3]);
                    }
                }
                assert forall|j: int, g: u32|
                    0 <= j < parts.len() && #[trigger] model_refs(parts[j], g) implies c <= g
                    < ps.1 by {
                    lemma_text_ids(new_sp_b(), env);
                    lemma_text_ids(lparen_b(), env);
                    lemma_text_ids(rparen_b(), env);
                    if 3 <= j < 3 + ps.0.len() {
                        assert(parts[j] == ps.0[j - 3]);
                    }
                }
                lemma_array_ids(parts, env, c, ps.1);
            }
        },
        NodeKind::ObjectExpression { properties } => {
            if properties@.len() > 0 {
                lemma_id_parts_ids(t, cm, path, 0, c, SepKind::CommaLine, env);
                let ps = spec_id_parts(t, cm, path, 0, c, SepKind::CommaLine);
                let iparts = seq![DocModel::Line] + ps.0;
                assert forall|j: int| 0 <= j < iparts.len() implies model_scoped(
                    #[trigger] iparts[j],
                    env,
                ) by {
                    if j >= 1 {
                        assert(iparts[j] == ps.0[j - 1]);
                    }
                }
                assert forall|j: int, g: u32|
                    0 <= j < iparts.len() && #[trigger] model_refs(iparts[j], g) implies c <= g
                    < ps.1 by {
                    if j >= 1 {
                        assert(iparts[j] == ps.0[j - 1]);
                    }
                }
                lemma_indent_ids(iparts, env, c, ps.1);
                let gparts = seq![
                    tm(lbrace_b()),
                    DocModel::Indent(iparts),
                    DocModel::Line,
                    tm(rbrace_b()),
                ];
                assert forall|j: int| 0 <= j < gparts.len() implies model_scoped(
                    #[trigger] gparts[j],
                    env,
                ) by {
                    lemma_text_ids(lbrace_b(), env);
                    lemma_text_ids(rbrace_b(), env);
                }
                assert forall|j: int, g: u32|
                    0 <= j < gparts.len() && #[trigger] model_refs(gparts[j], g) implies c <= g
                    < ps.1 by {
                    lemma_text_ids(lbrace_b(), env);
                    lemma_text_ids(rbrace_b(), env);
                }
                lemma_group_ids(gparts, false, None, env, c, ps.1);
            }
        },
        NodeKind::ObjectProperty { key, value } => {
            if 0 <= key < i && 0 <= value < i {
                lemma_format_node_ids(t, cm, path.push(key), c, env);
                let kd = spec_format_node(t, cm, path.push(key), c);
                lemma_format_node_ids(t, cm, path.push(value), kd.1, env);
                let vd = spec_format_node(t, cm, path.push(value), kd.1);
                let parts = seq![kd.0, tm(colon_sp_b()), vd.0];
                assert forall|j: int| 0 <= j < parts.len() implies model_scoped(
                    #[trigger] parts[j],
                    env,
                ) by {
                    lemma_text_ids(colon_sp_b(), env);
                }
                assert forall|j: int, g: u32|
                    0 <= j < parts.len() && #[trigger] model_refs(parts[j], g) implies c <= g
                    < vd.1 by {
                    lemma_text_ids(colon_sp_b(), env);
                }
                lemma_array_ids(parts, env, c, vd.1);
            }
        },
        NodeKind::ArrayExpression { .. } => {
            lemma_print_array_ids(t, cm, path, c, env);
        },
        NodeKind::TSTupleType { .. } => {
            lemma_print_array_ids(t, cm, path, c, env);
        },
        NodeKind::ArrayPattern { .. } => {
            lemma_print_array_ids(t, cm, path, c, env);
        },
        NodeKind::ArrayAssignmentTarget { .. } => {
            lemma_print_array_ids(t, cm, path, c, env);
        },
        NodeKind::ExpressionStatement { expression } => {
            if 0 <= expression < i {
                lemma_format_node_ids(t, cm, path.push(expression), c, env);
                let d = spec_format_node(t, cm, path.push(expression), c);
                let parts = seq![d.0, tm(semi_b())];
                assert forall|j: int| 0 <= j < parts.len() implies model_scoped(
                    #[trigger] parts[j],
                    env,
                ) by {
                    lemma_text_ids(semi_b(), env);
                }
                assert forall|j: int, g: u32|
                    0 <= j < parts.len() && #[trigger] model_refs(parts[j], g) implies c <= g
                    < d.1 by {
                    lemma_text_ids(semi_b(), env);
                }
                lemma_array_ids(parts, env, c, d.1);
            }
        },
        NodeKind::Program { .. } => {
            lemma_id_parts_ids(t, cm, path, 0, c, SepKind::HardBreak, env);
            let ps = spec_id_parts(t, cm, path, 0, c, SepKind::HardBreak);
            lemma_array_ids(ps.0, env, c, ps.1);
        },
        _ => {},
    }
}

proof fn lemma_id_parts_ids(
    t: Tree,
    cm: Seq<DanglingComment>,
    path: Seq<usize>,
    k: int,
    c: u32,
    sep: SepKind,
    env: Set<u32>,
)
    ensures
        ({
            let s = spec_id_parts(t, cm, path, k, c, sep);
            (forall|j: int| 0 <= j < s.0.len() ==> model_scoped(#[trigger] s.0[j], env)) && c
                <= s.1 && forall|j: int, g: u32|
                0 <= j < s.0.len() && #[trigger] model_refs(s.0[j], g) ==> c <= g < s.1
        }),
    decreases path[path.len() - 1] as int, 5int, id_list_of(t, path[path.len() - 1] as int).len()
        - k,
{
    let i = path[path.len() - 1] as int;
    let ids = id_list_of(t, i);
    if 0 <= k < ids.len() {
        let d = if 0 <= ids[k] < i {
            spec_format_node(t, cm, path.push(ids[k]), c)
        } else {
            (tm(empty_b()), c)
        };
        if 0 <= ids[k] < i {
            lemma_format_node_ids(t, cm, path.push(ids[k]), c, env);
        } else {
            lemma_text_ids(empty_b(), env);
        }
        lemma_id_parts_ids(t, cm, path, k + 1, d.1, sep, env);
        let rest = spec_id_parts(t, cm, path, k + 1, d.1, sep);
        let s = spec_id_parts(t, cm, path, k, c, sep);
        let head = if k > 0 {
            sep_models(sep) + seq![d.0]
        } else {
            seq![d.0]
        };
        assert(s.0 =~= head + rest.0);
        assert forall|j: int| 0 <= j < s.0.len() implies model_scoped(
            #[trigger] s.0[j],
            env,
        ) by {
            lemma_text_ids(comma_b(), env);
            lemma_text_ids(comma_sp_b(), env);
            if j < head.len() {
                assert(s.0[j] == head[j]);
            } else {
                assert(s.0[j] == rest.0[j - head.len()]);
            }
        }
        assert forall|j: int, g: u32|
            0 <= j < s.0.len() && #[trigger] model_refs(s.0[j], g) implies c <= g < s.1 by {
            lemma_text_ids(comma_b(), env);
            lemma_text_ids(comma_sp_b(), env);
            if j < head.len() {
                assert(s.0[j] == head[j]);
            } else {
                assert(s.0[j] == rest.0[j - head.len()]);
            }
        }
    }
}

proof fn lemma_family_parts_ids(
    t: Tree,
    cm: Seq<DanglingComment>,
    path: Seq<usize>,
    k: int,
    c: u32,
    env: Set<u32>,
)
    ensures
        ({
            let s = spec_family_parts(t, cm, path, k, c);
            (forall|j: int| 0 <= j < s.0.len() ==> model_scoped(#[trigger] s.0[j], env)) && c
                <= s.1 && forall|j: int, g: u32|
                0 <= j < s.0.len() && #[trigger] model_refs(s.0[j], g) ==> c <= g < s.1
        }),
    decreases path[path.len() - 1] as int, 5int, spec_array_len(t, path[path.len() - 1] as int)
        - k,
{
    let i = path[path.len() - 1] as int;
    let n = spec_array_len(t, i);
    if 0 <= k < n {
        let d = match family_elem_at(t, i, k) {
            ArrayElement::Elision => (tm(empty_b()), c),
            ArrayElement::Item(ch) => if 0 <= ch < i {
                spec_format_node(t, cm, path.push(ch), c)
            } else {
                (tm(empty_b()), c)
            },
        };
        match family_elem_at(t, i, k) {
            ArrayElement::Item(ch) => {
                if 0 <= ch < i {
                    lemma_format_node_ids(t, cm, path.push(ch), c, env);
                } else {
                    lemma_text_ids(empty_b(), env);
                }
            },
            ArrayElement::Elision => {
                lemma_text_ids(empty_b(), env);
            },
        }
        lemma_family_parts_ids(t, cm, path, k + 1, d.1, env);
        let rest = spec_family_parts(t, cm, path, k + 1, d.1);
        let s = spec_family_parts(t, cm, path, k, c);
        let head = if k > 0 {
            seq![tm(comma_b()), DocModel::Line, d.0]
        } else {
            seq![d.0]
        };
        assert(s.0 =~= head + rest.0);
        assert forall|j: int| 0 <= j < s.0.len() implies model_scoped(
            #[trigger] s.0[j],
            env,
        ) by {
            lemma_text_ids(comma_b(), env);
            if j < head.len() {
                assert(s.0[j] == head[j]);
            } else {
                assert(s.0[j] == rest.0[j - head.len()]);
            }
        }
        assert forall|j: int, g: u32|
            0 <= j < s.0.len() && #[trigger] model_refs(s.0[j], g) implies c <= g < s.1 by {
            lemma_text_ids(comma_b(), env);
            if j < head.len() {
                assert(s.0[j] == head[j]);
            } else {
                assert(s.0[j] == rest.0[j - head.len()]);
            }
        }
    }
}

proof fn lemma_concise_parts_ids(
    t: Tree,
    cm: Seq<DanglingComment>,
    path: Seq<usize>,
    k: int,
    c: u32,
    trailing: DocModel,
    env: Set<u32>,
    tlo: u32,
    thi: u32,
)
    requires
        model_scoped(trailing, env),
        forall|g: u32| model_refs(trailing, g) ==> tlo <= g < thi,
    ensures
        ({
            let s = spec_concise_parts(t, cm, path, k, c, trailing);
            (forall|j: int| 0 <= j < s.0.len() ==> model_scoped(#[trigger] s.0[j], env)) && c
                <= s.1 && forall|j: int, g: u32|
                0 <= j < s.0.len() && #[trigger] model_refs(s.0[j], g) ==> (c <= g < s.1 || (
                tlo <= g < thi))
        }),
    decreases path[path.len() - 1] as int, 5int, spec_array_len(t, path[path.len() - 1] as int)
        - k,
{
    let i = path[path.len() - 1] as int;
    let n = spec_array_len(t, i);
    if 0 <= k < n {
        let d = match family_elem_at(t, i, k) {
            ArrayElement::Elision => (tm(empty_b()), c),
            ArrayElement::Item(ch) => if 0 <= ch < i {
                spec_format_node(t, cm, path.push(ch), c)
            } else {
                (tm(empty_b()), c)
            },
        };
        match family_elem_at(t, i, k) {
            ArrayElement::Item(ch) => {
                if 0 <= ch < i {
                    lemma_format_node_ids(t, cm, path.push(ch), c, env);
                } else {
                    lemma_text_ids(empty_b(), env);
                }
            },
            ArrayElement::Elision => {
                lemma_text_ids(empty_b(), env);
            },
        }
        lemma_concise_parts_ids(t, cm, path, k + 1, d.1, trailing, env, tlo, thi);
        let rest = spec_concise_parts(t, cm, path, k + 1, d.1, trailing);
        let s = spec_concise_parts(t, cm, path, k, c, trailing);
        let is_last = k == n - 1;
        let tail = if is_last {
            trailing
        } else {
            tm(comma_b())
        };
        let pairseq = seq![d.0, tail];
        let part = DocModel::Array(pairseq);
        let head = if is_last {
            seq![part]
        } else {
            seq![part, DocModel::Line]
        };
        assert(s.0 =~= head + rest.0);
        assert(model_scoped(part, env)) by {
            lemma_text_ids(comma_b(), env);
            assert(forall|j: int|
                0 <= j < pairseq.len() ==> model_scoped(#[trigger] pairseq[j], env));
        }
        assert forall|j: int| 0 <= j < s.0.len() implies model_scoped(
            #[trigger] s.0[j],
            env,
        ) by {
            if j < head.len() {
                assert(s.0[j] == head[j]);
            } else {
                assert(s.0[j] == rest.0[j - head.len()]);
            }
        }
        assert forall|j: int, g: u32|
            0 <= j < s.0.len() && #[trigger] model_refs(s.0[j], g) implies (c <= g < s.1 || (tlo
            <= g < thi)) by {
            lemma_text_ids(comma_b(), env);
            if j < head.len() {
                assert(s.0[j] == head[j]);
                if s.0[j] == part && model_refs(part, g) {
                    let j2 = choose|j2: int|
                        0 <= j2 < pairseq.len() && model_refs(#[trigger] pairseq[j2], g);
                    assert(model_refs(pairseq[j2], g));
                }
            } else {
                assert(s.0[j] == rest.0[j - head.len()]);
            }
        }
    }
}

proof fn lemma_print_elements_ids(
    t: Tree,
    cm: Seq<DanglingComment>,
    path: Seq<usize>,
    c: u32,
    env: Set<u32>,
)
    ensures
        ({
            let s = spec_print_elements(t, cm, path, c);
            model_scoped(s.0, env) && c <= s.1 && forall|g: u32|
                model_refs(s.0, g) ==> c <= g < s.1
        }),
    decreases path[path.len() - 1] as int, 6int, 0int,
{
    let i = path[path.len() - 1] as int;
    lemma_family_parts_ids(t, cm, path, 0, c, env);
    let ps = spec_family_parts(t, cm, path, 0, c);
    match family_rest(t, i) {
        Some(r) => {
            if 0 <= r < i {
                lemma_format_node_ids(t, cm, path.push(r), ps.1, env);
                let rd = spec_format_node(t, cm, path.push(r), ps.1);
                let parts = ps.0 + seq![tm(comma_b()), DocModel::Line, rd.0];
                assert forall|j: int| 0 <= j < parts.len() implies model_scoped(
                    #[trigger] parts[j],
                    env,
                ) by {
                    lemma_text_ids(comma_b(), env);
                    if j < ps.0.len() {
                        assert(parts[j] == ps.0[j]);
                    }
                }
                assert forall|j: int, g: u32|
                    0 <= j < parts.len() && #[trigger] model_refs(parts[j], g) implies c <= g
                    < rd.1 by {
                    lemma_text_ids(comma_b(), env);
                    if j < ps.0.len() {
                        assert(parts[j] == ps.0[j]);
                    }
                }
                lemma_array_ids(parts, env, c, rd.1);
            } else {
                lemma_array_ids(ps.0, env, c, ps.1);
            }
        },
        None => {
            lemma_array_ids(ps.0, env, c, ps.1);
        },
    }
}

proof fn lemma_print_array_ids(
    t: Tree,
    cm: Seq<DanglingComment>,
    path: Seq<usize>,
    c: u32,
    env: Set<u32>,
)
    ensures
        ({
            let s = spec_print_array(t, cm, path, c);
            model_scoped(s.0, env) && c <= s.1 && forall|g: u32|
                model_refs(s.0, g) ==> c <= g < s.1
        }),
    decreases path[path.len() - 1] as int, 7int, 0int,
{
    let i = path[path.len() - 1] as int;
    if spec_array_len(t, i) == 0 {
        match spec_comment_for(cm, span_of(t, i)) {
            None => {
                lemma_text_ids(brackets_b(), env);
            },
            Some(txt) => {
                lemma_text_ids(txt, env);
                lemma_indent_ids(seq![tm(txt)], env, c, c);
                let gparts = seq![
                    tm(lbrack_b()),
                    DocModel::Indent(seq![tm(txt)]),
                    DocModel::SoftLine,
                    tm(rbrack_b()),
                ];
                assert forall|j: int| 0 <= j < gparts.len() implies model_scoped(
                    #[trigger] gparts[j],
                    env,
                ) by {
                    lemma_text_ids(lbrack_b(), env);
                    lemma_text_ids(rbrack_b(), env);
                }
                assert forall|j: int, g: u32|
                    0 <= j < gparts.len() && #[trigger] model_refs(gparts[j], g) implies c <= g
                    < c by {
                    lemma_text_ids(lbrack_b(), env);
                    lemma_text_ids(rbrack_b(), env);
                }
                lemma_group_ids(gparts, false, None, env, c, c);
            },
        }
    } else {
        let flags = spec_trailing_flags(t, i);
        let id_opt: Option<u32> = if c < 0xffff_ffff_u32 {
            Some(c)
        } else {
            None
        };
        let c1: u32 = if c < 0xffff_ffff_u32 {
            (c + 1) as u32
        } else {
            c
        };
        let env2 = match id_opt {
            Some(g) => env.insert(g),
            None => env,
        };
        let concise = match array_of(t, i) {
            Some(a) => spec_is_concisely_printed(t, a),
            None => false,
        };
        let trailing = spec_trailing_doc(flags.0, flags.1, concise, id_opt);
        assert(model_scoped(trailing, env2)) by {
            lemma_text_ids(empty_b(), env2);
            lemma_text_ids(comma_b(), env2);
        }
        assert(forall|g: u32| model_refs(trailing, g) ==> c <= g < c1);
        let elements = if concise {
            let ps = spec_concise_parts(t, cm, path, 0, c1, trailing);
            (DocModel::Fill(ps.0), ps.1)
        } else {
            let ed = spec_print_elements(t, cm, path, c1);
            (DocModel::Array(seq![ed.0, trailing]), ed.1)
        };
        if concise {
            lemma_concise_parts_ids(t, cm, path, 0, c1, trailing, env2, c, c1);
            let ps = spec_concise_parts(t, cm, path, 0, c1, trailing);
            assert forall|j: int, g: u32|
                0 <= j < ps.0.len() && #[trigger] model_refs(ps.0[j], g) implies c <= g
                < ps.1 by {}
            lemma_fill_ids(ps.0, env2, c, ps.1);
        } else {
            lemma_print_elements_ids(t, cm, path, c1, env2);
            let ed = spec_print_elements(t, cm, path, c1);
            let parts = seq![ed.0, trailing];
            assert forall|j: int| 0 <= j < parts.len() implies model_scoped(
                #[trigger] parts[j],
                env2,
            ) by {}
            assert forall|j: int, g: u32|
                0 <= j < parts.len() && #[trigger] model_refs(parts[j], g) implies c <= g
                < ed.1 by {}
            lemma_array_ids(parts, env2, c, ed.1);
        }
        let iparts = match spec_comment_for(cm, span_of(t, i)) {
            Some(txt) => seq![DocModel::SoftLine, elements.0, tm(txt)],
            None => seq![DocModel::SoftLine, elements.0],
        };
        assert forall|j: int| 0 <= j < iparts.len() implies model_scoped(
            #[trigger] iparts[j],
            env2,
        ) by {
            match spec_comment_for(cm, span_of(t, i)) {
                Some(txt) => {
                    lemma_text_ids(txt, env2);
                },
                None => {},
            }
        }
        assert forall|j: int, g: u32|
            0 <= j < iparts.len() && #[trigger] model_refs(iparts[j], g) implies c <= g
            < elements.1 by {
            match spec_comment_for(cm, span_of(t, i)) {
                Some(txt) => {
                    lemma_text_ids(txt, env2);
                },
                None => {},
            }
        }
        lemma_indent_ids(iparts, env2, c, elements.1);
        let gparts = seq![
            tm(lbrack_b()),
            DocModel::Indent(iparts),
            DocModel::SoftLine,
            tm(rbrack_b()),
        ];
        assert forall|j: int| 0 <= j < gparts.len() implies model_scoped(
            #[trigger] gparts[j],
            env2,
        ) by {
            lemma_text_ids(lbrack_b(), env2);
            lemma_text_ids(rbrack_b(), env2);
        }
        assert forall|j: int, g: u32|
            0 <= j < gparts.len() && #[trigger] model_refs(gparts[j], g) implies c <= g
            < elements.1 by {
            lemma_text_ids(lbrack_b(), env2);
            lemma_text_ids(rbrack_b(), env2);
        }
        let sb = match array_of(t, i) {
            Some(a) => spec_should_break(t, a),
            None => false,
        };
        lemma_group_ids(gparts, sb, id_opt, env, c, elements.1);
    }
}

/// Two docs the formatter builds one after the other never name one
/// another's groups: each names only identifiers handed out during its own
/// construction, and those ranges are disjoint. Together with the
/// width-test law of the printer, resolving one sibling group can never
/// change the computation that resolves the other.
pub proof fn lemma_sibling_docs_share_no_ids(
    t: Tree,
    cm: Seq<DanglingComment>,
    path1: Seq<usize>,
    path2: Seq<usize>,
    c: u32,
    env: Set<u32>,
)
    ensures
        ({
            let s1 = spec_format_node(t, cm, path1, c);
            let s2 = spec_format_node(t, cm, path2, s1.1);
            forall|g: u32| !(model_refs(s1.0, g) && model_refs(s2.0, g))
        }),
{
    let s1 = spec_format_node(t, cm, path1, c);
    lemma_format_node_ids(t, cm, path1, c, env);
    lemma_format_node_ids(t, cm, path2, s1.1, env);
}

/// Group independence, stitched end to end: a doc the formatter builds
/// after a sibling names none of the identifiers handed out during that
/// sibling's construction. So for any arena doc whose view is the later
/// sibling's doc, two break-state tables that differ only inside the
/// earlier sibling's identifier range `[c, c')` give the same width-test
/// outcome: resolving the earlier sibling's groups never changes the
/// computation that resolves the later one.
pub proof fn lemma_sibling_resolution_independent(
    a: DocArena,
    r2: int,
    mode: crate::printer::Mode,
    rem: usize,
    t: Tree,
    cm: Seq<DanglingComment>,
    path1: Seq<usize>,
    path2: Seq<usize>,
    c: u32,
    t1: Seq<Option<bool>>,
    t2: Seq<Option<bool>>,
)
    requires
        arena_wf(a),
        0 <= r2 < a.docs@.len(),
        doc_model(a, r2) == spec_format_node(
            t,
            cm,
            path2,
            spec_format_node(t, cm, path1, c).1,
        ).0,
        forall|g: u32|
            !(c <= g < spec_format_node(t, cm, path1, c).1) ==> crate::printer::table_get(t1, g)
                == crate::printer::table_get(t2, g),
    ensures
        crate::printer::spec_fits_doc(a, r2, mode, t1, rem) == crate::printer::spec_fits_doc(
            a,
            r2,
            mode,
            t2,
            rem,
        ),
{
    let c1 = spec_format_node(t, cm, path1, c).1;
    let s2 = spec_format_node(t, cm, path2, c1);
    lemma_format_node_ids(t, cm, path2, c1, Set::empty());
    assert forall|g: u32|
        crate::printer::doc_ref_ids(a, r2).contains(g) implies crate::printer::table_get(t1, g)
        == crate::printer::table_get(t2, g) by {
        crate::printer::lemma_ref_ids_are_model_refs(a, r2, g);
        assert(model_refs(s2.0, g));
        assert(c1 <= g);
    }
    crate::printer::lemma_fits_table_independent(a, r2, mode, t1, t2, rem);
}

} // verus!
