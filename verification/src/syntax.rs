//! The syntax tree model.
//!
//! A parsed source unit is held as an arena of nodes: `Tree` owns a vector
//! of `Node`s, and a node refers to its children by index. A well-formed
//! tree stores every child before its parent, so a child's index is always
//! strictly below its parent's; downward walks therefore terminate, and the
//! root is the last node. Each node carries the source byte span it was
//! parsed from; literals and identifiers also carry their source text.
//!
//! Only the distinctions the formatter and the analyzer draw are modeled:
//! operators the analyzer never tells apart fall into an `Other` bucket.

use vstd::prelude::*;
use crate::span::Span;

verus! {

/// A prefix operator.
#[derive(Clone, Copy, PartialEq, Eq, Structural, Debug)]
pub enum UnaryOperator {
    UnaryPlus,
    UnaryNegation,
    LogicalNot,
    BitwiseNot,
    Typeof,
    Void,
    Delete,
}

/// An increment or decrement operator.
#[derive(Clone, Copy, PartialEq, Eq, Structural, Debug)]
pub enum UpdateOperator {
    Increment,
    Decrement,
}

/// A binary operator, reduced to the distinctions the analyzer draws.
#[derive(Clone, Copy, PartialEq, Eq, Structural, Debug)]
pub enum BinaryOperator {
    Exponential,
    In,
    Other,
}

/// One slot of an array literal: an elided hole, or a node (an expression
/// or a spread element).
#[derive(Clone, Copy, PartialEq, Eq, Structural, Debug)]
pub enum ArrayElement {
    Elision,
    Item(usize),
}

/// The kind of a node, with its child indices.
pub enum NodeKind {
    Program { body: Vec<usize> },
    ExpressionStatement { expression: usize },
    ForStatement { init: Option<usize>, update: Option<usize> },
    ExportDefaultDeclaration { expression: Option<usize> },
    NumberLiteral { raw: Vec<u8> },
    StringLiteral { raw: Vec<u8> },
    Identifier { name: Vec<u8> },
    ArrayExpression { elements: Vec<ArrayElement> },
    ObjectExpression { properties: Vec<usize> },
    ObjectProperty { key: usize, value: usize },
    SpreadElement { argument: usize },
    UnaryExpression { operator: UnaryOperator, argument: usize },
    UpdateExpression { operator: UpdateOperator, prefix: bool, argument: usize },
    BinaryExpression { operator: BinaryOperator, left: usize, right: usize },
    LogicalExpression { left: usize, right: usize },
    AssignmentExpression { left: usize, right: usize },
    ConditionalExpression { test: usize, consequent: usize, alternate: usize },
    CallExpression { callee: usize, arguments: Vec<usize> },
    NewExpression { callee: usize, arguments: Vec<usize> },
    MemberExpression { object: usize, property: Vec<u8> },
    SequenceExpression { expressions: Vec<usize> },
    TaggedTemplateExpression { tag: usize },
    TSNonNullExpression { expression: usize },
    TSAsExpression { expression: usize },
    TSSatisfiesExpression { expression: usize },
    TSTypeAssertion { expression: usize },
    YieldExpression { argument: Option<usize> },
    AwaitExpression { argument: usize },
    ArrowExpression { expression: Option<usize> },
    Function { expression: bool },
    Class { expression: bool, super_class: Option<usize>, has_decorators: bool },
    ChainExpression { expression: usize },
    JSXSpreadAttribute { argument: usize },
    AssignmentPattern { left: usize, right: usize },
    ArrayPattern { elements: Vec<Option<usize>>, rest: Option<usize> },
    ArrayAssignmentTarget { elements: Vec<Option<usize>>, rest: Option<usize> },
    ObjectAssignmentTarget,
    TSTupleType { element_types: Vec<usize> },
    TSTypeReference { name: Vec<u8> },
}

/// One node: its source span and its kind with children.
pub struct Node {
    pub span: Span,
    pub kind: NodeKind,
}

/// An arena-held syntax tree.
pub struct Tree {
    pub nodes: Vec<Node>,
}

pub open spec fn opt_ok(c: Option<usize>, i: int) -> bool {
    match c {
        Some(c) => c < i,
        None => true,
    }
}

pub open spec fn list_ok(cs: Seq<usize>, i: int) -> bool {
    forall|j: int| 0 <= j < cs.len() ==> cs[j] < i
}

pub open spec fn opt_list_ok(cs: Seq<Option<usize>>, i: int) -> bool {
    forall|j: int| 0 <= j < cs.len() ==> opt_ok(cs[j], i)
}

pub open spec fn elem_ok(e: ArrayElement, i: int) -> bool {
    match e {
        ArrayElement::Item(c) => c < i,
        ArrayElement::Elision => true,
    }
}

pub open spec fn elems_ok(es: Seq<ArrayElement>, i: int) -> bool {
    forall|j: int| 0 <= j < es.len() ==> elem_ok(es[j], i)
}

/// Every child index of node `n` lies strictly below `i`.
pub open spec fn node_wf(n: Node, i: int) -> bool {
    match n.kind {
        NodeKind::Program { body } => list_ok(body@, i),
        NodeKind::ExpressionStatement { expression } => expression < i,
        NodeKind::ForStatement { init, update } => opt_ok(init, i) && opt_ok(update, i),
        NodeKind::ExportDefaultDeclaration { expression } => opt_ok(expression, i),
        NodeKind::NumberLiteral { .. } => true,
        NodeKind::StringLiteral { .. } => true,
        NodeKind::Identifier { .. } => true,
        NodeKind::ArrayExpression { elements } => elems_ok(elements@, i),
        NodeKind::ObjectExpression { properties } => list_ok(properties@, i),
        NodeKind::ObjectProperty { key, value } => key < i && value < i,
        NodeKind::SpreadElement { argument } => argument < i,
        NodeKind::UnaryExpression { argument, .. } => argument < i,
        NodeKind::UpdateExpression { argument, .. } => argument < i,
        NodeKind::BinaryExpression { left, right, .. } => left < i && right < i,
        NodeKind::LogicalExpression { left, right } => left < i && right < i,
        NodeKind::AssignmentExpression { left, right } => left < i && right < i,
        NodeKind::ConditionalExpression { test, consequent, alternate } => test < i && consequent
            < i && alternate < i,
        NodeKind::CallExpression { callee, arguments } => callee < i && list_ok(arguments@, i),
        NodeKind::NewExpression { callee, arguments } => callee < i && list_ok(arguments@, i),
        NodeKind::MemberExpression { object, .. } => object < i,
        NodeKind::SequenceExpression { expressions } => list_ok(expressions@, i),
        NodeKind::TaggedTemplateExpression { tag } => tag < i,
        NodeKind::TSNonNullExpression { expression } => expression < i,
        NodeKind::TSAsExpression { expression } => expression < i,
        NodeKind::TSSatisfiesExpression { expression } => expression < i,
        NodeKind::TSTypeAssertion { expression } => expression < i,
        NodeKind::YieldExpression { argument } => opt_ok(argument, i),
        NodeKind::AwaitExpression { argument } => argument < i,
        NodeKind::ArrowExpression { expression } => opt_ok(expression, i),
        NodeKind::Function { .. } => true,
        NodeKind::Class { super_class, .. } => opt_ok(super_class, i),
        NodeKind::ChainExpression { expression } => expression < i,
        NodeKind::JSXSpreadAttribute { argument } => argument < i,
        NodeKind::AssignmentPattern { left, right } => left < i && right < i,
        NodeKind::ArrayPattern { elements, rest } => opt_list_ok(elements@, i) && opt_ok(rest, i),
        NodeKind::ArrayAssignmentTarget { elements, rest } => opt_list_ok(elements@, i) && opt_ok(
            rest,
            i,
        ),
        NodeKind::ObjectAssignmentTarget => true,
        NodeKind::TSTupleType { element_types } => list_ok(element_types@, i),
        NodeKind::TSTypeReference { .. } => true,
    }
}

/// A well-formed tree: every node's children lie strictly below it.
pub open spec fn tree_wf(t: Tree) -> bool {
    forall|i: int| 0 <= i < t.nodes@.len() ==> #[trigger] node_wf(t.nodes@[i], i)
}

/// A path of node indices into `t`, at least one node long; its last entry
/// is the node under consideration and the entries before it are its
/// ancestors, root first.
pub open spec fn path_wf(t: Tree, path: Seq<usize>) -> bool {
    path.len() >= 1 && forall|k: int| 0 <= k < path.len() ==> path[k] < t.nodes@.len()
}

/// The kind of node `i`.
pub open spec fn kind_of(t: Tree, i: int) -> NodeKind {
    t.nodes@[i].kind
}

/// The span of node `i`.
pub open spec fn span_of(t: Tree, i: int) -> Span {
    t.nodes@[i].span
}

/// Whether node `i` is a statement or a declaration; such a node is never
/// parenthesized.
pub open spec fn is_statement_or_declaration(t: Tree, i: int) -> bool {
    match kind_of(t, i) {
        NodeKind::ExpressionStatement { .. } => true,
        NodeKind::ForStatement { .. } => true,
        NodeKind::ExportDefaultDeclaration { .. } => true,
        NodeKind::Function { expression } => !expression,
        NodeKind::Class { expression, .. } => !expression,
        _ => false,
    }
}

impl Tree {
    /// Number of nodes in the arena.
    pub fn len(&self) -> (n: usize)
        ensures
            n == self.nodes@.len(),
    {
        self.nodes.len()
    }

    /// Appends a node and returns its index; the caller is responsible for
    /// having appended the node's children first.
    pub fn push(&mut self, node: Node) -> (i: usize)
        requires
            node_wf(node, old(self).nodes@.len() as int),
        ensures
            i == old(self).nodes@.len(),
            final(self).nodes@ == old(self).nodes@.push(node),
            tree_wf(*old(self)) ==> tree_wf(*final(self)),
    {
        let i = self.nodes.len();
        self.nodes.push(node);
        proof {
            assert forall|j: int| 0 <= j < self.nodes@.len() implies (tree_wf(*old(self))
                ==> node_wf(self.nodes@[j], j)) by {
                if j < old(self).nodes@.len() {
                    assert(self.nodes@[j] == old(self).nodes@[j]);
                }
            }
        }
        i
    }

    /// Creates an empty tree.
    pub fn new() -> (t: Tree)
        ensures
            t.nodes@.len() == 0,
            tree_wf(t),
    {
        Tree { nodes: Vec::new() }
    }
}

} // verus!
