//! The parenthesization-necessity analysis.
//!
//! Given a node and the path of its ancestors, the analysis decides whether
//! the node's printed form must be wrapped in parentheses so that re-parsing
//! the emitted text reproduces the original tree shape and operator
//! associations, and so that statement-head lexical ambiguities are avoided.
//!
//! Every function here works on a `path`: the node indices from the tree
//! root down to, and including, the node under consideration, which is the
//! last entry. The decision is a function of the node's kind and its
//! parent's kind and shape, except for a few rules that scan further up the
//! path (arrow bodies, expression-statement heads, `for` initializers).
//! When such an upward scan runs out of ancestors, the rule does not apply
//! and no parentheses are required. Where a rule compares a node with an
//! ancestor's designated child slot, it compares source spans, never
//! structure.
//!
//! The specification functions define the rule tables; the executable
//! functions mirror them and are proved equal.

use vstd::prelude::*;
use crate::span::Span;
use crate::syntax::{
    kind_of, node_wf, span_of, tree_wf, path_wf, is_statement_or_declaration, BinaryOperator,
    NodeKind, Tree, UnaryOperator, UpdateOperator,
};

verus! {

/// The node under consideration: the last entry of the path.
pub open spec fn cur_of(path: Seq<usize>) -> int {
    path[path.len() - 1] as int
}

/// Whether the path reaches above the current node.
pub open spec fn has_parent(path: Seq<usize>) -> bool {
    path.len() >= 2
}

/// The immediate parent of the current node.
pub open spec fn parent_of(path: Seq<usize>) -> int {
    path[path.len() - 2] as int
}

/// Whether node `i` is a function expression.
pub open spec fn is_function_expression(t: Tree, i: int) -> bool {
    match kind_of(t, i) {
        NodeKind::Function { expression } => expression,
        _ => false,
    }
}

/// Whether node `i` is a class expression.
pub open spec fn is_class_expression(t: Tree, i: int) -> bool {
    match kind_of(t, i) {
        NodeKind::Class { expression, .. } => expression,
        _ => false,
    }
}

/// The cast-expression special case of the binary-operand rules. Like the
/// optional-chain refinement of the member/call rule, this is a known,
/// deliberate gap, preserved as such rather than filled in: the
/// distinction is not yet drawn, so no operand is treated as a cast, which
/// errs toward inserting parentheses under a cast parent and omitting them
/// in the conditional and assignment special cases.
pub open spec fn is_binary_cast_expression(t: Tree, i: int) -> bool {
    false
}

/// Whether the expression `e` starts, walking left-hand slots only, with
/// the token whose span is `span`. Used to decide whether an object,
/// function or class literal would stand at the head of a statement and be
/// lexically misread there.
pub open spec fn spec_starts_with_no_lookahead_token(t: Tree, e: int, span: Span) -> bool
    decreases e,
{
    match kind_of(t, e) {
        NodeKind::BinaryExpression { left, .. } => 0 <= left < e
            && spec_starts_with_no_lookahead_token(t, left as int, span),
        NodeKind::LogicalExpression { left, .. } => 0 <= left < e
            && spec_starts_with_no_lookahead_token(t, left as int, span),
        NodeKind::AssignmentExpression { left, .. } => 0 <= left < e && spec_target_starts_with(
            t,
            left as int,
            span,
        ),
        NodeKind::MemberExpression { object, .. } => 0 <= object < e
            && spec_starts_with_no_lookahead_token(t, object as int, span),
        NodeKind::TaggedTemplateExpression { tag } => 0 <= tag < e && !is_function_expression(
            t,
            tag as int,
        ) && spec_starts_with_no_lookahead_token(t, tag as int, span),
        NodeKind::CallExpression { callee, .. } => 0 <= callee < e && !is_function_expression(
            t,
            callee as int,
        ) && spec_starts_with_no_lookahead_token(t, callee as int, span),
        NodeKind::ConditionalExpression { test, .. } => 0 <= test < e
            && spec_starts_with_no_lookahead_token(t, test as int, span),
        NodeKind::UpdateExpression { prefix, argument, .. } => !prefix && 0 <= argument < e
            && spec_target_starts_with(t, argument as int, span),
        NodeKind::SequenceExpression { expressions } => expressions@.len() > 0 && 0 <= expressions@[0]
            < e && spec_starts_with_no_lookahead_token(t, expressions@[0] as int, span),
        NodeKind::ChainExpression { expression } => 0 <= expression < e && spec_chain_starts_with(
            t,
            expression as int,
            span,
        ),
        NodeKind::TSSatisfiesExpression { expression } => 0 <= expression < e
            && spec_starts_with_no_lookahead_token(t, expression as int, span),
        NodeKind::TSAsExpression { expression } => 0 <= expression < e
            && spec_starts_with_no_lookahead_token(t, expression as int, span),
        NodeKind::TSNonNullExpression { expression } => 0 <= expression < e
            && spec_starts_with_no_lookahead_token(t, expression as int, span),
        _ => span_of(t, e) == span,
    }
}

/// The assignment-target arm of the walk: a bare identifier target cannot
/// start with the sought token, a member target is walked through its
/// object, a cast target through its operand, and a pattern target never
/// matches.
pub open spec fn spec_target_starts_with(t: Tree, target: int, span: Span) -> bool
    decreases target,
{
    match kind_of(t, target) {
        NodeKind::MemberExpression { object, .. } => 0 <= object < target
            && spec_starts_with_no_lookahead_token(t, object as int, span),
        NodeKind::TSAsExpression { expression } => 0 <= expression < target
            && spec_starts_with_no_lookahead_token(t, expression as int, span),
        NodeKind::TSSatisfiesExpression { expression } => 0 <= expression < target
            && spec_starts_with_no_lookahead_token(t, expression as int, span),
        NodeKind::TSNonNullExpression { expression } => 0 <= expression < target
            && spec_starts_with_no_lookahead_token(t, expression as int, span),
        NodeKind::TSTypeAssertion { expression } => 0 <= expression < target
            && spec_starts_with_no_lookahead_token(t, expression as int, span),
        _ => false,
    }
}

/// The optional-chain arm of the walk: the chain's call or member element
/// is walked through its callee or object.
pub open spec fn spec_chain_starts_with(t: Tree, element: int, span: Span) -> bool
    decreases element,
{
    match kind_of(t, element) {
        NodeKind::CallExpression { callee, .. } => 0 <= callee < element
            && spec_starts_with_no_lookahead_token(t, callee as int, span),
        NodeKind::MemberExpression { object, .. } => 0 <= object < element
            && spec_starts_with_no_lookahead_token(t, object as int, span),
        _ => false,
    }
}

/// Whether the callee chain of a `new` expression, walked through member
/// accesses, tagged templates and non-null assertions, bottoms out in a
/// call expression. `new (f())()` must keep the parentheses around `f()`.
pub open spec fn spec_callee_chain_has_call(t: Tree, i: int) -> bool
    decreases i,
{
    match kind_of(t, i) {
        NodeKind::CallExpression { .. } => true,
        NodeKind::MemberExpression { object, .. } => 0 <= object < i && spec_callee_chain_has_call(
            t,
            object as int,
        ),
        NodeKind::TaggedTemplateExpression { tag } => 0 <= tag < i && spec_callee_chain_has_call(
            t,
            tag as int,
        ),
        NodeKind::TSNonNullExpression { expression } => 0 <= expression < i
            && spec_callee_chain_has_call(t, expression as int),
        _ => false,
    }
}

/// The innermost enclosing arrow expression on the path, if any.
pub open spec fn spec_enclosing_arrow(t: Tree, path: Seq<usize>) -> Option<usize>
    decreases path.len(),
{
    if path.len() == 0 {
        None
    } else if kind_of(t, path.last() as int) matches NodeKind::ArrowExpression { .. } {
        Some(path.last())
    } else {
        spec_enclosing_arrow(t, path.drop_last())
    }
}

/// Whether the current node, an object literal, is the expression body of
/// an enclosing arrow function and would open that body's first token.
pub open spec fn spec_check_object_expression(t: Tree, path: Seq<usize>) -> bool {
    match spec_enclosing_arrow(t, path) {
        Some(arrow) => match kind_of(t, arrow as int) {
            NodeKind::ArrowExpression { expression: Some(e) } => match kind_of(t, e as int) {
                NodeKind::SequenceExpression { .. } => false,
                NodeKind::AssignmentExpression { .. } => false,
                _ => spec_starts_with_no_lookahead_token(t, e as int, span_of(t, cur_of(path))),
            },
            _ => false,
        },
        None => false,
    }
}

/// Whether node `node` is an expression statement whose expression starts
/// with the token at `span`.
pub open spec fn expr_stmt_head_matches(t: Tree, node: int, span: Span) -> bool {
    match kind_of(t, node) {
        NodeKind::ExpressionStatement { expression } => spec_starts_with_no_lookahead_token(
            t,
            expression as int,
            span,
        ),
        _ => false,
    }
}

/// Whether some enclosing expression statement's expression starts with the
/// current node's token, which would make an object, function or class
/// literal at that position lexically ambiguous.
pub open spec fn spec_check_object_function_class(t: Tree, path: Seq<usize>) -> bool {
    exists|k: int|
        0 <= k < path.len() && #[trigger] expr_stmt_head_matches(
            t,
            path[k] as int,
            span_of(t, cur_of(path)),
        )
}

/// The update/unary rule against the parent: parenthesize when the operand
/// is the base of a member access, call, `new` or non-null assertion, the
/// tag side of a tagged template, or the base of an exponentiation.
pub open spec fn spec_check_update_unary(t: Tree, path: Seq<usize>) -> bool {
    let span = span_of(t, cur_of(path));
    has_parent(path) && match kind_of(t, parent_of(path)) {
        NodeKind::MemberExpression { object, .. } => span_of(t, object as int) == span,
        NodeKind::TaggedTemplateExpression { .. } => true,
        NodeKind::CallExpression { callee, .. } => span_of(t, callee as int) == span,
        NodeKind::NewExpression { callee, .. } => span_of(t, callee as int) == span,
        NodeKind::BinaryExpression { operator, left, .. } => span_of(t, left as int) == span
            && operator == BinaryOperator::Exponential,
        NodeKind::TSNonNullExpression { .. } => true,
        _ => false,
    }
}

/// The yield/await rule against the parent: a fixed set of operand
/// positions forces parentheses.
pub open spec fn spec_check_yield_await(t: Tree, path: Seq<usize>) -> bool {
    let span = span_of(t, cur_of(path));
    has_parent(path) && match kind_of(t, parent_of(path)) {
        NodeKind::TaggedTemplateExpression { .. } => true,
        NodeKind::UnaryExpression { .. } => true,
        NodeKind::LogicalExpression { .. } => true,
        NodeKind::SpreadElement { .. } => true,
        NodeKind::TSAsExpression { .. } => true,
        NodeKind::TSSatisfiesExpression { .. } => true,
        NodeKind::TSNonNullExpression { .. } => true,
        NodeKind::BinaryExpression { .. } => true,
        NodeKind::MemberExpression { object, .. } => span_of(t, object as int) == span,
        NodeKind::NewExpression { callee, .. } => span_of(t, callee as int) == span,
        NodeKind::CallExpression { callee, .. } => span_of(t, callee as int) == span,
        NodeKind::ConditionalExpression { test, .. } => span_of(t, test as int) == span,
        _ => false,
    }
}

/// The shared rule of binary, logical and cast ("binarish") expressions
/// against the parent.
pub open spec fn spec_check_binarish(t: Tree, path: Seq<usize>) -> bool {
    let c = cur_of(path);
    let span = span_of(t, c);
    has_parent(path) && match kind_of(t, parent_of(path)) {
        NodeKind::TSAsExpression { .. } => !is_binary_cast_expression(t, c),
        NodeKind::TSSatisfiesExpression { .. } => !is_binary_cast_expression(t, c),
        NodeKind::ConditionalExpression { .. } => is_binary_cast_expression(t, c),
        NodeKind::NewExpression { callee, .. } => span_of(t, callee as int) == span,
        NodeKind::CallExpression { callee, .. } => span_of(t, callee as int) == span,
        NodeKind::Class { super_class, .. } => match super_class {
            Some(h) => span_of(t, h as int) == span,
            None => false,
        },
        NodeKind::TSTypeAssertion { .. } => true,
        NodeKind::TaggedTemplateExpression { .. } => true,
        NodeKind::UnaryExpression { .. } => true,
        NodeKind::JSXSpreadAttribute { .. } => true,
        NodeKind::SpreadElement { .. } => true,
        NodeKind::AwaitExpression { .. } => true,
        NodeKind::TSNonNullExpression { .. } => true,
        NodeKind::UpdateExpression { .. } => true,
        NodeKind::MemberExpression { object, .. } => span_of(t, object as int) == span,
        NodeKind::AssignmentExpression { left, .. } => span_of(t, left as int) == span
            && is_binary_cast_expression(t, c),
        NodeKind::AssignmentPattern { left, .. } => span_of(t, left as int) == span
            && is_binary_cast_expression(t, c),
        _ => false,
    }
}

/// The member/call/tagged-template/non-null rule: parentheses are needed
/// only for the callee of a `new` expression whose callee chain bottoms
/// out in a call.
pub open spec fn spec_check_member_call_tagged_template_ts_non_null(
    t: Tree,
    path: Seq<usize>,
) -> bool {
    let span = span_of(t, cur_of(path));
    has_parent(path) && match kind_of(t, parent_of(path)) {
        NodeKind::NewExpression { callee, .. } => span_of(t, callee as int) == span
            && spec_callee_chain_has_call(t, callee as int),
        _ => false,
    }
}

/// The member/call rule. A further rule about elements of optional chains
/// is a known, deliberate gap: it is not drawn here, so the decision falls
/// back to the `new`-callee rule alone.
pub open spec fn spec_check_member_call(t: Tree, path: Seq<usize>) -> bool {
    spec_check_member_call_tagged_template_ts_non_null(t, path)
}

/// Whether the current node sits in the initializer slot of an enclosing
/// `for` statement, walking the path upward span by span; a bare `in`
/// operator there would be read as the `for...in` form.
pub open spec fn for_init_pair(t: Tree, p: int, n: int) -> bool {
    match kind_of(t, p) {
        NodeKind::ForStatement { init: Some(init), .. } => span_of(t, init as int) == span_of(
            t,
            n,
        ),
        _ => false,
    }
}

pub open spec fn spec_in_for_init(t: Tree, path: Seq<usize>) -> bool
    decreases path.len(),
{
    if path.len() < 2 {
        false
    } else {
        for_init_pair(t, path[path.len() - 2] as int, path[path.len() - 1] as int)
            || spec_in_for_init(t, path.drop_last())
    }
}

/// Whether a node kind exposes a leftmost operand slot that the
/// export-default walk can descend into.
pub open spec fn spec_has_naked_left_side(t: Tree, i: int) -> bool {
    match kind_of(t, i) {
        NodeKind::AssignmentExpression { .. } => true,
        NodeKind::BinaryExpression { .. } => true,
        NodeKind::LogicalExpression { .. } => true,
        NodeKind::ConditionalExpression { .. } => true,
        NodeKind::CallExpression { .. } => true,
        NodeKind::MemberExpression { .. } => true,
        NodeKind::SequenceExpression { .. } => true,
        NodeKind::TaggedTemplateExpression { .. } => true,
        NodeKind::TSNonNullExpression { .. } => true,
        NodeKind::ChainExpression { .. } => true,
        NodeKind::UpdateExpression { prefix, .. } => !prefix,
        _ => false,
    }
}

/// The leftmost operand of a node with a naked left side.
pub open spec fn spec_left_side(t: Tree, i: int) -> Option<usize> {
    match kind_of(t, i) {
        NodeKind::AssignmentExpression { left, .. } => Some(left),
        NodeKind::BinaryExpression { left, .. } => Some(left),
        NodeKind::LogicalExpression { left, .. } => Some(left),
        NodeKind::ConditionalExpression { test, .. } => Some(test),
        NodeKind::CallExpression { callee, .. } => Some(callee),
        NodeKind::MemberExpression { object, .. } => Some(object),
        NodeKind::SequenceExpression { expressions } => if expressions@.len() > 0 {
            Some(expressions@[0])
        } else {
            None
        },
        NodeKind::TaggedTemplateExpression { tag } => Some(tag),
        NodeKind::TSNonNullExpression { expression } => Some(expression),
        NodeKind::ChainExpression { expression } => Some(expression),
        NodeKind::UpdateExpression { argument, .. } => Some(argument),
        _ => None,
    }
}

/// Whether the parent of the current node is an export-default declaration.
pub open spec fn parent_is_export_default(t: Tree, path: Seq<usize>) -> bool {
    has_parent(path) && kind_of(t, parent_of(path)) matches NodeKind::ExportDefaultDeclaration {
        ..
    }
}

/// The class-extends rule: the superclass expression of a class needs
/// parentheses for a closed set of expression kinds.
pub open spec fn spec_check_class_super(t: Tree, path: Seq<usize>) -> bool {
    let c = cur_of(path);
    let span = span_of(t, c);
    has_parent(path) && match kind_of(t, parent_of(path)) {
        NodeKind::Class { super_class: Some(h), .. } => span_of(t, h as int) == span
            && match kind_of(t, c) {
            NodeKind::ArrowExpression { .. } => true,
            NodeKind::AssignmentExpression { .. } => true,
            NodeKind::AwaitExpression { .. } => true,
            NodeKind::BinaryExpression { .. } => true,
            NodeKind::ConditionalExpression { .. } => true,
            NodeKind::LogicalExpression { .. } => true,
            NodeKind::NewExpression { .. } => true,
            NodeKind::ObjectExpression { .. } => true,
            NodeKind::SequenceExpression { .. } => true,
            NodeKind::TaggedTemplateExpression { .. } => true,
            NodeKind::UnaryExpression { .. } => true,
            NodeKind::UpdateExpression { .. } => true,
            NodeKind::YieldExpression { .. } => true,
            NodeKind::TSNonNullExpression { .. } => true,
            NodeKind::Class { expression, has_decorators, .. } => expression && has_decorators,
            _ => false,
        },
        _ => false,
    }
}

/// The per-kind rule table, dispatched on the current node's kind and then
/// on its parent's kind and shape.
pub open spec fn spec_check_kind(t: Tree, path: Seq<usize>) -> bool {
    let c = cur_of(path);
    let span = span_of(t, c);
    let p: Option<NodeKind> = if has_parent(path) {
        Some(kind_of(t, parent_of(path)))
    } else {
        None
    };
    match kind_of(t, c) {
        NodeKind::NumberLiteral { .. } => match p {
            Some(NodeKind::MemberExpression { object, .. }) => span_of(t, object as int) == span,
            _ => false,
        },
        NodeKind::SequenceExpression { .. } => match p {
            Some(NodeKind::Program { .. }) => false,
            _ => true,
        },
        NodeKind::ObjectExpression { .. } => spec_check_object_function_class(t, path),
        NodeKind::Function { expression } => expression && (spec_check_object_function_class(
            t,
            path,
        ) || match p {
            Some(NodeKind::CallExpression { callee, .. }) => span_of(t, callee as int) == span,
            Some(NodeKind::NewExpression { callee, .. }) => span_of(t, callee as int) == span,
            Some(NodeKind::TaggedTemplateExpression { .. }) => true,
            _ => false,
        }),
        NodeKind::Class { expression, .. } => expression && spec_check_object_function_class(
            t,
            path,
        ),
        NodeKind::AssignmentExpression { left, .. } => match p {
            Some(NodeKind::ArrowExpression { .. }) => true,
            Some(NodeKind::AssignmentExpression { .. }) => false,
            Some(NodeKind::ForStatement { init, update }) => !(match init {
                Some(i) => span_of(t, i as int) == span,
                None => false,
            } || match update {
                Some(u) => span_of(t, u as int) == span,
                None => false,
            }),
            Some(NodeKind::ExpressionStatement { .. }) => kind_of(t, left as int)
                matches NodeKind::ObjectAssignmentTarget,
            Some(_) => true,
            None => true,
        },
        NodeKind::UpdateExpression { operator, prefix, .. } => match p {
            Some(NodeKind::UnaryExpression { operator: uop, .. }) => prefix && ((operator
                == UpdateOperator::Increment && uop == UnaryOperator::UnaryPlus) || (operator
                == UpdateOperator::Decrement && uop == UnaryOperator::UnaryNegation)),
            _ => spec_check_update_unary(t, path),
        },
        NodeKind::UnaryExpression { operator, .. } => match p {
            Some(NodeKind::UnaryExpression { operator: pop, .. }) => operator == pop && (operator
                == UnaryOperator::UnaryPlus || operator == UnaryOperator::UnaryNegation),
            _ => spec_check_update_unary(t, path),
        },
        NodeKind::YieldExpression { .. } => match p {
            Some(NodeKind::AwaitExpression { .. }) => true,
            _ => spec_check_yield_await(t, path),
        },
        NodeKind::AwaitExpression { .. } => spec_check_yield_await(t, path),
        NodeKind::TSTypeAssertion { .. } => spec_check_binarish(t, path),
        NodeKind::TSAsExpression { .. } => spec_check_binarish(t, path),
        NodeKind::TSSatisfiesExpression { .. } => spec_check_binarish(t, path),
        NodeKind::LogicalExpression { .. } => spec_check_binarish(t, path),
        NodeKind::BinaryExpression { operator, .. } => match p {
            Some(NodeKind::UpdateExpression { .. }) => true,
            _ => (operator == BinaryOperator::In && spec_in_for_init(t, path))
                || spec_check_binarish(t, path),
        },
        NodeKind::MemberExpression { .. } => spec_check_member_call(t, path),
        NodeKind::CallExpression { .. } => spec_check_member_call(t, path),
        NodeKind::TaggedTemplateExpression { .. } =>
            spec_check_member_call_tagged_template_ts_non_null(t, path),
        NodeKind::TSNonNullExpression { .. } => spec_check_member_call_tagged_template_ts_non_null(
            t,
            path,
        ),
        NodeKind::ConditionalExpression { .. } => match p {
            Some(NodeKind::TaggedTemplateExpression { .. }) => true,
            Some(NodeKind::UnaryExpression { .. }) => true,
            Some(NodeKind::SpreadElement { .. }) => true,
            Some(NodeKind::BinaryExpression { .. }) => true,
            Some(NodeKind::LogicalExpression { .. }) => true,
            Some(NodeKind::ExportDefaultDeclaration { .. }) => true,
            Some(NodeKind::AwaitExpression { .. }) => true,
            Some(NodeKind::JSXSpreadAttribute { .. }) => true,
            Some(NodeKind::TSAsExpression { .. }) => true,
            Some(NodeKind::TSSatisfiesExpression { .. }) => true,
            Some(NodeKind::TSNonNullExpression { .. }) => true,
            Some(NodeKind::CallExpression { callee, .. }) => span_of(t, callee as int) == span,
            Some(NodeKind::NewExpression { callee, .. }) => span_of(t, callee as int) == span,
            Some(NodeKind::ConditionalExpression { test, .. }) => span_of(t, test as int) == span,
            Some(NodeKind::MemberExpression { object, .. }) => span_of(t, object as int) == span,
            _ => false,
        },
        NodeKind::ArrowExpression { .. } => match p {
            Some(NodeKind::CallExpression { callee, .. }) => span_of(t, callee as int) == span,
            Some(NodeKind::NewExpression { callee, .. }) => span_of(t, callee as int) == span,
            Some(NodeKind::MemberExpression { object, .. }) => span_of(t, object as int) == span,
            Some(NodeKind::TSAsExpression { .. }) => true,
            Some(NodeKind::TSSatisfiesExpression { .. }) => true,
            Some(NodeKind::TSNonNullExpression { .. }) => true,
            Some(NodeKind::TaggedTemplateExpression { .. }) => true,
            Some(NodeKind::UnaryExpression { .. }) => true,
            Some(NodeKind::LogicalExpression { .. }) => true,
            Some(NodeKind::AwaitExpression { .. }) => true,
            Some(NodeKind::TSTypeAssertion { .. }) => true,
            Some(NodeKind::ConditionalExpression { test, .. }) => span_of(t, test as int) == span,
            _ => false,
        },
        _ => false,
    }
}

/// Whether the current node must be parenthesized, with `with_export`
/// selecting whether the export-default rule is considered; the rule calls
/// back into the analysis only for nodes whose parent is not an export
/// default, so the restricted form is exact there.
pub open spec fn spec_need_parens_rec(t: Tree, path: Seq<usize>, with_export: bool) -> bool
    decreases cur_of(path), (if with_export { 3int } else { 0int }),
{
    let c = cur_of(path);
    if kind_of(t, c) matches NodeKind::Program { .. } {
        false
    } else if is_statement_or_declaration(t, c) {
        false
    } else {
        ((kind_of(t, c) matches NodeKind::ObjectExpression { .. }) && spec_check_object_expression(
            t,
            path,
        )) || spec_check_class_super(t, path) || (with_export && spec_export_default_rule(t, path))
            || spec_check_kind(t, path)
    }
}

/// The export-default rule: the exported expression is parenthesized when
/// it is a sequence expression, or when the naked-left-side walk from it
/// bottoms out in a function or class expression that would itself need
/// parentheses.
pub open spec fn spec_export_default_rule(t: Tree, path: Seq<usize>) -> bool
    decreases cur_of(path), 2int,
{
    has_parent(path) && match kind_of(t, parent_of(path)) {
        NodeKind::ExportDefaultDeclaration { expression: Some(e) } => (kind_of(t, e as int)
            matches NodeKind::SequenceExpression { .. }) || spec_should_wrap_export(t, path),
        _ => false,
    }
}

/// One step of the naked-left-side walk under an export default.
pub open spec fn spec_should_wrap_export(t: Tree, path: Seq<usize>) -> bool
    decreases cur_of(path), 1int,
{
    let c = cur_of(path);
    let b = parent_is_export_default(t, path);
    if is_function_expression(t, c) || is_class_expression(t, c) {
        b || !spec_need_parens_rec(t, path, false)
    } else if !spec_has_naked_left_side(t, c) || (!b && spec_need_parens_rec(t, path, false)) {
        false
    } else {
        match spec_left_side(t, c) {
            Some(l) => 0 <= l < c && spec_should_wrap_export(t, path.push(l)),
            None => false,
        }
    }
}

/// Whether the current node must be re-emitted inside parentheses.
pub open spec fn spec_need_parens(t: Tree, path: Seq<usize>) -> bool {
    spec_need_parens_rec(t, path, true)
}

/// Clones a path and appends one more node to it.
fn push_path(path: &Vec<usize>, l: usize) -> (r: Vec<usize>)
    ensures
        r@ == path@.push(l),
{
    let mut r: Vec<usize> = Vec::new();
    let mut i: usize = 0;
    while i < path.len()
        invariant
            i <= path@.len(),
            r@ == path@.take(i as int),
        decreases path@.len() - i,
    {
        r.push(path[i]);
        proof {
            assert(path@.take(i as int).push(path@[i as int]) =~= path@.take(i as int + 1));
        }
        i += 1;
    }
    proof {
        assert(path@.take(path@.len() as int) =~= path@);
    }
    r.push(l);
    r
}

fn is_function_expression_exec(t: &Tree, i: usize) -> (r: bool)
    requires
        i < t.nodes@.len(),
    ensures
        r == is_function_expression(*t, i as int),
{
    match &t.nodes[i].kind {
        NodeKind::Function { expression } => *expression,
        _ => false,
    }
}

fn is_class_expression_exec(t: &Tree, i: usize) -> (r: bool)
    requires
        i < t.nodes@.len(),
    ensures
        r == is_class_expression(*t, i as int),
{
    match &t.nodes[i].kind {
        NodeKind::Class { expression, .. } => *expression,
        _ => false,
    }
}

/// Whether expression `e` starts, walking left-hand slots only, with the
/// token at `span`.
pub fn starts_with_no_lookahead_token(t: &Tree, e: usize, span: Span) -> (r: bool)
    requires
        tree_wf(*t),
        e < t.nodes@.len(),
    ensures
        r == spec_starts_with_no_lookahead_token(*t, e as int, span),
    decreases e,
{
    proof {
        assert(node_wf(t.nodes@[e as int], e as int));
    }
    match &t.nodes[e].kind {
        NodeKind::BinaryExpression { left, .. } => starts_with_no_lookahead_token(t, *left, span),
        NodeKind::LogicalExpression { left, .. } => starts_with_no_lookahead_token(t, *left, span),
        NodeKind::AssignmentExpression { left, .. } => target_starts_with(t, *left, span),
        NodeKind::MemberExpression { object, .. } => starts_with_no_lookahead_token(
            t,
            *object,
            span,
        ),
        NodeKind::TaggedTemplateExpression { tag } => {
            if is_function_expression_exec(t, *tag) {
                false
            } else {
                starts_with_no_lookahead_token(t, *tag, span)
            }
        },
        NodeKind::CallExpression { callee, .. } => {
            if is_function_expression_exec(t, *callee) {
                false
            } else {
                starts_with_no_lookahead_token(t, *callee, span)
            }
        },
        NodeKind::ConditionalExpression { test, .. } => starts_with_no_lookahead_token(
            t,
            *test,
            span,
        ),
        NodeKind::UpdateExpression { prefix, argument, .. } => {
            if *prefix {
                false
            } else {
                target_starts_with(t, *argument, span)
            }
        },
        NodeKind::SequenceExpression { expressions } => {
            if expressions.len() == 0 {
                false
            } else {
                starts_with_no_lookahead_token(t, expressions[0], span)
            }
        },
        NodeKind::ChainExpression { expression } => chain_starts_with(t, *expression, span),
        NodeKind::TSSatisfiesExpression { expression } => starts_with_no_lookahead_token(
            t,
            *expression,
            span,
        ),
        NodeKind::TSAsExpression { expression } => starts_with_no_lookahead_token(
            t,
            *expression,
            span,
        ),
        NodeKind::TSNonNullExpression { expression } => starts_with_no_lookahead_token(
            t,
            *expression,
            span,
        ),
        _ => t.nodes[e].span == span,
    }
}

fn target_starts_with(t: &Tree, target: usize, span: Span) -> (r: bool)
    requires
        tree_wf(*t),
        target < t.nodes@.len(),
    ensures
        r == spec_target_starts_with(*t, target as int, span),
    decreases target,
{
    proof {
        assert(node_wf(t.nodes@[target as int], target as int));
    }
    match &t.nodes[target].kind {
        NodeKind::MemberExpression { object, .. } => starts_with_no_lookahead_token(
            t,
            *object,
            span,
        ),
        NodeKind::TSAsExpression { expression } => starts_with_no_lookahead_token(
            t,
            *expression,
            span,
        ),
        NodeKind::TSSatisfiesExpression { expression } => starts_with_no_lookahead_token(
            t,
            *expression,
            span,
        ),
        NodeKind::TSNonNullExpression { expression } => starts_with_no_lookahead_token(
            t,
            *expression,
            span,
        ),
        NodeKind::TSTypeAssertion { expression } => starts_with_no_lookahead_token(
            t,
            *expression,
            span,
        ),
        _ => false,
    }
}

fn chain_starts_with(t: &Tree, element: usize, span: Span) -> (r: bool)
    requires
        tree_wf(*t),
        element < t.nodes@.len(),
    ensures
        r == spec_chain_starts_with(*t, element as int, span),
    decreases element,
{
    proof {
        assert(node_wf(t.nodes@[element as int], element as int));
    }
    match &t.nodes[element].kind {
        NodeKind::CallExpression { callee, .. } => starts_with_no_lookahead_token(
            t,
            *callee,
            span,
        ),
        NodeKind::MemberExpression { object, .. } => starts_with_no_lookahead_token(
            t,
            *object,
            span,
        ),
        _ => false,
    }
}

/// Whether the callee chain of a `new` expression bottoms out in a call.
pub fn callee_chain_has_call(t: &Tree, i: usize) -> (r: bool)
    requires
        tree_wf(*t),
        i < t.nodes@.len(),
    ensures
        r == spec_callee_chain_has_call(*t, i as int),
    decreases i,
{
    proof {
        assert(node_wf(t.nodes@[i as int], i as int));
    }
    match &t.nodes[i].kind {
        NodeKind::CallExpression { .. } => true,
        NodeKind::MemberExpression { object, .. } => callee_chain_has_call(t, *object),
        NodeKind::TaggedTemplateExpression { tag } => callee_chain_has_call(t, *tag),
        NodeKind::TSNonNullExpression { expression } => callee_chain_has_call(t, *expression),
        _ => false,
    }
}

/// The innermost enclosing arrow expression on the path, if any.
fn find_enclosing_arrow(t: &Tree, path: &Vec<usize>) -> (r: Option<usize>)
    requires
        forall|k: int| 0 <= k < path@.len() ==> path@[k] < t.nodes@.len(),
    ensures
        r == spec_enclosing_arrow(*t, path@),
        r matches Some(a) ==> a < t.nodes@.len(),
{
    let mut k: usize = path.len();
    proof {
        assert(path@.take(path@.len() as int) =~= path@);
    }
    while k > 0
        invariant
            k <= path@.len(),
            forall|j: int| 0 <= j < path@.len() ==> path@[j] < t.nodes@.len(),
            spec_enclosing_arrow(*t, path@) == spec_enclosing_arrow(*t, path@.take(k as int)),
        decreases k,
    {
        k = k - 1;
        let node = path[k];
        let is_arrow = match &t.nodes[node].kind {
            NodeKind::ArrowExpression { .. } => true,
            _ => false,
        };
        proof {
            assert(path@.take(k as int + 1).last() == path@[k as int]);
            assert(path@.take(k as int + 1).drop_last() =~= path@.take(k as int));
        }
        if is_arrow {
            return Some(node);
        }
    }
    proof {
        assert(path@.take(0).len() == 0);
    }
    None
}

/// Whether the current node, an object literal, would open the body of an
/// enclosing arrow function.
pub fn check_object_expression(t: &Tree, path: &Vec<usize>) -> (r: bool)
    requires
        tree_wf(*t),
        path_wf(*t, path@),
    ensures
        r == spec_check_object_expression(*t, path@),
{
    let cur = path[path.len() - 1];
    let span = t.nodes[cur].span;
    match find_enclosing_arrow(t, path) {
        Some(arrow) => {
            proof {
                assert(node_wf(t.nodes@[arrow as int], arrow as int));
            }
            match &t.nodes[arrow].kind {
                NodeKind::ArrowExpression { expression: Some(e) } => {
                    match &t.nodes[*e].kind {
                        NodeKind::SequenceExpression { .. } => false,
                        NodeKind::AssignmentExpression { .. } => false,
                        _ => starts_with_no_lookahead_token(t, *e, span),
                    }
                },
                _ => false,
            }
        },
        None => false,
    }
}

/// Whether some enclosing expression statement's expression starts with the
/// current node's token.
pub fn check_object_function_class(t: &Tree, path: &Vec<usize>) -> (r: bool)
    requires
        tree_wf(*t),
        path_wf(*t, path@),
    ensures
        r == spec_check_object_function_class(*t, path@),
{
    let cur = path[path.len() - 1];
    let span = t.nodes[cur].span;
    let mut k: usize = 0;
    while k < path.len()
        invariant
            k <= path@.len(),
            tree_wf(*t),
            path_wf(*t, path@),
            cur == path@.last(),
            cur < t.nodes@.len(),
            span == span_of(*t, cur_of(path@)),
            forall|j: int| 0 <= j < k ==> !expr_stmt_head_matches(*t, path@[j] as int, span),
        decreases path@.len() - k,
    {
        let node = path[k];
        proof {
            assert(node_wf(t.nodes@[node as int], node as int));
        }
        match &t.nodes[node].kind {
            NodeKind::ExpressionStatement { expression } => {
                if starts_with_no_lookahead_token(t, *expression, span) {
                    proof {
                        assert(expr_stmt_head_matches(*t, path@[k as int] as int, span));
                    }
                    return true;
                }
            },
            _ => {},
        }
        k += 1;
    }
    false
}

/// The update/unary rule against the parent.
pub fn check_update_unary(t: &Tree, path: &Vec<usize>) -> (r: bool)
    requires
        tree_wf(*t),
        path_wf(*t, path@),
    ensures
        r == spec_check_update_unary(*t, path@),
{
    if path.len() < 2 {
        return false;
    }
    let cur = path[path.len() - 1];
    let span = t.nodes[cur].span;
    let p = path[path.len() - 2];
    proof {
        assert(node_wf(t.nodes@[p as int], p as int));
    }
    match &t.nodes[p].kind {
        NodeKind::MemberExpression { object, .. } => t.nodes[*object].span == span,
        NodeKind::TaggedTemplateExpression { .. } => true,
        NodeKind::CallExpression { callee, .. } => t.nodes[*callee].span == span,
        NodeKind::NewExpression { callee, .. } => t.nodes[*callee].span == span,
        NodeKind::BinaryExpression { operator, left, .. } => t.nodes[*left].span == span
            && *operator == BinaryOperator::Exponential,
        NodeKind::TSNonNullExpression { .. } => true,
        _ => false,
    }
}

/// The yield/await rule against the parent.
pub fn check_yield_await(t: &Tree, path: &Vec<usize>) -> (r: bool)
    requires
        tree_wf(*t),
        path_wf(*t, path@),
    ensures
        r == spec_check_yield_await(*t, path@),
{
    if path.len() < 2 {
        return false;
    }
    let cur = path[path.len() - 1];
    let span = t.nodes[cur].span;
    let p = path[path.len() - 2];
    proof {
        assert(node_wf(t.nodes@[p as int], p as int));
    }
    match &t.nodes[p].kind {
        NodeKind::TaggedTemplateExpression { .. } => true,
        NodeKind::UnaryExpression { .. } => true,
        NodeKind::LogicalExpression { .. } => true,
        NodeKind::SpreadElement { .. } => true,
        NodeKind::TSAsExpression { .. } => true,
        NodeKind::TSSatisfiesExpression { .. } => true,
        NodeKind::TSNonNullExpression { .. } => true,
        NodeKind::BinaryExpression { .. } => true,
        NodeKind::MemberExpression { object, .. } => t.nodes[*object].span == span,
        NodeKind::NewExpression { callee, .. } => t.nodes[*callee].span == span,
        NodeKind::CallExpression { callee, .. } => t.nodes[*callee].span == span,
        NodeKind::ConditionalExpression { test, .. } => t.nodes[*test].span == span,
        _ => false,
    }
}

/// The shared binary/logical/cast rule against the parent.
pub fn check_binarish(t: &Tree, path: &Vec<usize>) -> (r: bool)
    requires
        tree_wf(*t),
        path_wf(*t, path@),
    ensures
        r == spec_check_binarish(*t, path@),
{
    if path.len() < 2 {
        return false;
    }
    let cur = path[path.len() - 1];
    let span = t.nodes[cur].span;
    let p = path[path.len() - 2];
    proof {
        assert(node_wf(t.nodes@[p as int], p as int));
    }
    match &t.nodes[p].kind {
        NodeKind::TSAsExpression { .. } => true,
        NodeKind::TSSatisfiesExpression { .. } => true,
        NodeKind::ConditionalExpression { .. } => false,
        NodeKind::NewExpression { callee, .. } => t.nodes[*callee].span == span,
        NodeKind::CallExpression { callee, .. } => t.nodes[*callee].span == span,
        NodeKind::Class { super_class, .. } => {
            match super_class {
                Some(h) => t.nodes[*h].span == span,
                None => false,
            }
        },
        NodeKind::TSTypeAssertion { .. } => true,
        NodeKind::TaggedTemplateExpression { .. } => true,
        NodeKind::UnaryExpression { .. } => true,
        NodeKind::JSXSpreadAttribute { .. } => true,
        NodeKind::SpreadElement { .. } => true,
        NodeKind::AwaitExpression { .. } => true,
        NodeKind::TSNonNullExpression { .. } => true,
        NodeKind::UpdateExpression { .. } => true,
        NodeKind::MemberExpression { object, .. } => t.nodes[*object].span == span,
        NodeKind::AssignmentExpression { .. } => false,
        NodeKind::AssignmentPattern { .. } => false,
        _ => false,
    }
}

/// The member/call/tagged-template/non-null rule: the `new`-callee case.
pub fn check_member_call_tagged_template_ts_non_null(t: &Tree, path: &Vec<usize>) -> (r: bool)
    requires
        tree_wf(*t),
        path_wf(*t, path@),
    ensures
        r == spec_check_member_call_tagged_template_ts_non_null(*t, path@),
{
    if path.len() < 2 {
        return false;
    }
    let cur = path[path.len() - 1];
    let span = t.nodes[cur].span;
    let p = path[path.len() - 2];
    proof {
        assert(node_wf(t.nodes@[p as int], p as int));
    }
    match &t.nodes[p].kind {
        NodeKind::NewExpression { callee, .. } => {
            if t.nodes[*callee].span == span {
                callee_chain_has_call(t, *callee)
            } else {
                false
            }
        },
        _ => false,
    }
}

/// The member/call rule; the optional-chain refinement is a deliberate gap.
pub fn check_member_call(t: &Tree, path: &Vec<usize>) -> (r: bool)
    requires
        tree_wf(*t),
        path_wf(*t, path@),
    ensures
        r == spec_check_member_call(*t, path@),
{
    check_member_call_tagged_template_ts_non_null(t, path)
}

/// Whether the current node sits in an enclosing `for` initializer.
pub fn is_path_in_for_statement_initializer(t: &Tree, path: &Vec<usize>) -> (r: bool)
    requires
        tree_wf(*t),
        path_wf(*t, path@),
    ensures
        r == spec_in_for_init(*t, path@),
{
    let mut m: usize = path.len();
    proof {
        assert(path@.take(path@.len() as int) =~= path@);
    }
    while m >= 2
        invariant
            m <= path@.len(),
            tree_wf(*t),
            path_wf(*t, path@),
            spec_in_for_init(*t, path@) == spec_in_for_init(*t, path@.take(m as int)),
        decreases m,
    {
        let p = path[m - 2];
        let n = path[m - 1];
        proof {
            assert(node_wf(t.nodes@[p as int], p as int));
            assert(path@.take(m as int)[m - 2] == path@[m - 2]);
            assert(path@.take(m as int)[m - 1] == path@[m - 1]);
            assert(path@.take(m as int).drop_last() =~= path@.take(m as int - 1));
        }
        let pair = match &t.nodes[p].kind {
            NodeKind::ForStatement { init: Some(init), .. } => t.nodes[*init].span
                == t.nodes[n].span,
            _ => false,
        };
        if pair {
            return true;
        }
        m = m - 1;
    }
    false
}

fn has_naked_left_side(t: &Tree, i: usize) -> (r: bool)
    requires
        i < t.nodes@.len(),
    ensures
        r == spec_has_naked_left_side(*t, i as int),
{
    match &t.nodes[i].kind {
        NodeKind::AssignmentExpression { .. } => true,
        NodeKind::BinaryExpression { .. } => true,
        NodeKind::LogicalExpression { .. } => true,
        NodeKind::ConditionalExpression { .. } => true,
        NodeKind::CallExpression { .. } => true,
        NodeKind::MemberExpression { .. } => true,
        NodeKind::SequenceExpression { .. } => true,
        NodeKind::TaggedTemplateExpression { .. } => true,
        NodeKind::TSNonNullExpression { .. } => true,
        NodeKind::ChainExpression { .. } => true,
        NodeKind::UpdateExpression { prefix, .. } => !*prefix,
        _ => false,
    }
}

fn get_left_side_path_name(t: &Tree, i: usize) -> (r: Option<usize>)
    requires
        tree_wf(*t),
        i < t.nodes@.len(),
    ensures
        r == spec_left_side(*t, i as int),
        r matches Some(l) ==> l < i,
{
    proof {
        assert(node_wf(t.nodes@[i as int], i as int));
    }
    match &t.nodes[i].kind {
        NodeKind::AssignmentExpression { left, .. } => Some(*left),
        NodeKind::BinaryExpression { left, .. } => Some(*left),
        NodeKind::LogicalExpression { left, .. } => Some(*left),
        NodeKind::ConditionalExpression { test, .. } => Some(*test),
        NodeKind::CallExpression { callee, .. } => Some(*callee),
        NodeKind::MemberExpression { object, .. } => Some(*object),
        NodeKind::SequenceExpression { expressions } => {
            if expressions.len() > 0 {
                Some(expressions[0])
            } else {
                None
            }
        },
        NodeKind::TaggedTemplateExpression { tag } => Some(*tag),
        NodeKind::TSNonNullExpression { expression } => Some(*expression),
        NodeKind::ChainExpression { expression } => Some(*expression),
        NodeKind::UpdateExpression { argument, .. } => Some(*argument),
        _ => None,
    }
}

/// The class-extends rule.
pub fn check_class_super(t: &Tree, path: &Vec<usize>) -> (r: bool)
    requires
        tree_wf(*t),
        path_wf(*t, path@),
    ensures
        r == spec_check_class_super(*t, path@),
{
    if path.len() < 2 {
        return false;
    }
    let cur = path[path.len() - 1];
    let span = t.nodes[cur].span;
    let p = path[path.len() - 2];
    proof {
        assert(node_wf(t.nodes@[p as int], p as int));
    }
    match &t.nodes[p].kind {
        NodeKind::Class { super_class: Some(h), .. } => {
            if t.nodes[*h].span == span {
                match &t.nodes[cur].kind {
                    NodeKind::ArrowExpression { .. } => true,
                    NodeKind::AssignmentExpression { .. } => true,
                    NodeKind::AwaitExpression { .. } => true,
                    NodeKind::BinaryExpression { .. } => true,
                    NodeKind::ConditionalExpression { .. } => true,
                    NodeKind::LogicalExpression { .. } => true,
                    NodeKind::NewExpression { .. } => true,
                    NodeKind::ObjectExpression { .. } => true,
                    NodeKind::SequenceExpression { .. } => true,
                    NodeKind::TaggedTemplateExpression { .. } => true,
                    NodeKind::UnaryExpression { .. } => true,
                    NodeKind::UpdateExpression { .. } => true,
                    NodeKind::YieldExpression { .. } => true,
                    NodeKind::TSNonNullExpression { .. } => true,
                    NodeKind::Class { expression, has_decorators, .. } => *expression
                        && *has_decorators,
                    _ => false,
                }
            } else {
                false
            }
        },
        _ => false,
    }
}

/// The per-kind rule table.
pub fn check_kind(t: &Tree, path: &Vec<usize>) -> (r: bool)
    requires
        tree_wf(*t),
        path_wf(*t, path@),
    ensures
        r == spec_check_kind(*t, path@),
{
    let cur = path[path.len() - 1];
    let span = t.nodes[cur].span;
    let has_p = path.len() >= 2;
    proof {
        assert(node_wf(t.nodes@[cur as int], cur as int));
        if has_p {
            assert(node_wf(t.nodes@[parent_of(path@)], parent_of(path@)));
        }
    }
    match &t.nodes[cur].kind {
        NodeKind::NumberLiteral { .. } => {
            if !has_p {
                return false;
            }
            let p = path[path.len() - 2];
            match &t.nodes[p].kind {
                NodeKind::MemberExpression { object, .. } => t.nodes[*object].span == span,
                _ => false,
            }
        },
        NodeKind::SequenceExpression { .. } => {
            if !has_p {
                return true;
            }
            let p = path[path.len() - 2];
            match &t.nodes[p].kind {
                NodeKind::Program { .. } => false,
                _ => true,
            }
        },
        NodeKind::ObjectExpression { .. } => check_object_function_class(t, path),
        NodeKind::Function { expression } => {
            if !*expression {
                return false;
            }
            if check_object_function_class(t, path) {
                return true;
            }
            if !has_p {
                return false;
            }
            let p = path[path.len() - 2];
            match &t.nodes[p].kind {
                NodeKind::CallExpression { callee, .. } => t.nodes[*callee].span == span,
                NodeKind::NewExpression { callee, .. } => t.nodes[*callee].span == span,
                NodeKind::TaggedTemplateExpression { .. } => true,
                _ => false,
            }
        },
        NodeKind::Class { expression, .. } => {
            if !*expression {
                return false;
            }
            check_object_function_class(t, path)
        },
        NodeKind::AssignmentExpression { left, .. } => {
            if !has_p {
                return true;
            }
            let p = path[path.len() - 2];
            match &t.nodes[p].kind {
                NodeKind::ArrowExpression { .. } => true,
                NodeKind::AssignmentExpression { .. } => false,
                NodeKind::ForStatement { init, update } => {
                    let in_init = match init {
                        Some(i) => t.nodes[*i].span == span,
                        None => false,
                    };
                    let in_update = match update {
                        Some(u) => t.nodes[*u].span == span,
                        None => false,
                    };
                    !(in_init || in_update)
                },
                NodeKind::ExpressionStatement { .. } => {
                    match &t.nodes[*left].kind {
                        NodeKind::ObjectAssignmentTarget => true,
                        _ => false,
                    }
                },
                _ => true,
            }
        },
        NodeKind::UpdateExpression { operator, prefix, .. } => {
            let parent_unary: Option<UnaryOperator> = if has_p {
                match &t.nodes[path[path.len() - 2]].kind {
                    NodeKind::UnaryExpression { operator: uop, .. } => Some(*uop),
                    _ => None,
                }
            } else {
                None
            };
            match parent_unary {
                Some(uop) => *prefix && ((*operator == UpdateOperator::Increment && uop
                    == UnaryOperator::UnaryPlus) || (*operator == UpdateOperator::Decrement && uop
                    == UnaryOperator::UnaryNegation)),
                None => check_update_unary(t, path),
            }
        },
        NodeKind::UnaryExpression { operator, .. } => {
            let parent_unary: Option<UnaryOperator> = if has_p {
                match &t.nodes[path[path.len() - 2]].kind {
                    NodeKind::UnaryExpression { operator: pop, .. } => Some(*pop),
                    _ => None,
                }
            } else {
                None
            };
            match parent_unary {
                Some(pop) => *operator == pop && (*operator == UnaryOperator::UnaryPlus
                    || *operator == UnaryOperator::UnaryNegation),
                None => check_update_unary(t, path),
            }
        },
        NodeKind::YieldExpression { .. } => {
            let parent_await = if has_p {
                match &t.nodes[path[path.len() - 2]].kind {
                    NodeKind::AwaitExpression { .. } => true,
                    _ => false,
                }
            } else {
                false
            };
            if parent_await {
                true
            } else {
                check_yield_await(t, path)
            }
        },
        NodeKind::AwaitExpression { .. } => check_yield_await(t, path),
        NodeKind::TSTypeAssertion { .. } => check_binarish(t, path),
        NodeKind::TSAsExpression { .. } => check_binarish(t, path),
        NodeKind::TSSatisfiesExpression { .. } => check_binarish(t, path),
        NodeKind::LogicalExpression { .. } => check_binarish(t, path),
        NodeKind::BinaryExpression { operator, .. } => {
            let parent_update = if has_p {
                match &t.nodes[path[path.len() - 2]].kind {
                    NodeKind::UpdateExpression { .. } => true,
                    _ => false,
                }
            } else {
                false
            };
            if parent_update {
                true
            } else if *operator == BinaryOperator::In && is_path_in_for_statement_initializer(
                t,
                path,
            ) {
                true
            } else {
                check_binarish(t, path)
            }
        },
        NodeKind::MemberExpression { .. } => check_member_call(t, path),
        NodeKind::CallExpression { .. } => check_member_call(t, path),
        NodeKind::TaggedTemplateExpression { .. } => check_member_call_tagged_template_ts_non_null(
            t,
            path,
        ),
        NodeKind::TSNonNullExpression { .. } => check_member_call_tagged_template_ts_non_null(
            t,
            path,
        ),
        NodeKind::ConditionalExpression { .. } => {
            if !has_p {
                return false;
            }
            let p = path[path.len() - 2];
            match &t.nodes[p].kind {
                NodeKind::TaggedTemplateExpression { .. } => true,
                NodeKind::UnaryExpression { .. } => true,
                NodeKind::SpreadElement { .. } => true,
                NodeKind::BinaryExpression { .. } => true,
                NodeKind::LogicalExpression { .. } => true,
                NodeKind::ExportDefaultDeclaration { .. } => true,
                NodeKind::AwaitExpression { .. } => true,
                NodeKind::JSXSpreadAttribute { .. } => true,
                NodeKind::TSAsExpression { .. } => true,
                NodeKind::TSSatisfiesExpression { .. } => true,
                NodeKind::TSNonNullExpression { .. } => true,
                NodeKind::CallExpression { callee, .. } => t.nodes[*callee].span == span,
                NodeKind::NewExpression { callee, .. } => t.nodes[*callee].span == span,
                NodeKind::ConditionalExpression { test, .. } => t.nodes[*test].span == span,
                NodeKind::MemberExpression { object, .. } => t.nodes[*object].span == span,
                _ => false,
            }
        },
        NodeKind::ArrowExpression { .. } => {
            if !has_p {
                return false;
            }
            let p = path[path.len() - 2];
            match &t.nodes[p].kind {
                NodeKind::CallExpression { callee, .. } => t.nodes[*callee].span == span,
                NodeKind::NewExpression { callee, .. } => t.nodes[*callee].span == span,
                NodeKind::MemberExpression { object, .. } => t.nodes[*object].span == span,
                NodeKind::TSAsExpression { .. } => true,
                NodeKind::TSSatisfiesExpression { .. } => true,
                NodeKind::TSNonNullExpression { .. } => true,
                NodeKind::TaggedTemplateExpression { .. } => true,
                NodeKind::UnaryExpression { .. } => true,
                NodeKind::LogicalExpression { .. } => true,
                NodeKind::AwaitExpression { .. } => true,
                NodeKind::TSTypeAssertion { .. } => true,
                NodeKind::ConditionalExpression { test, .. } => t.nodes[*test].span == span,
                _ => false,
            }
        },
        _ => false,
    }
}

/// Whether the current node must be parenthesized, with the export-default
/// rule considered only when `with_export` holds.
fn need_parens_rec(t: &Tree, path: &Vec<usize>, with_export: bool) -> (r: bool)
    requires
        tree_wf(*t),
        path_wf(*t, path@),
    ensures
        r == spec_need_parens_rec(*t, path@, with_export),
    decreases path@[path@.len() - 1] as int, (if with_export { 3int } else { 0int }),
{
    let cur = path[path.len() - 1];
    let stmt_or_decl = match &t.nodes[cur].kind {
        NodeKind::Program { .. } => return false,
        NodeKind::ExpressionStatement { .. } => true,
        NodeKind::ForStatement { .. } => true,
        NodeKind::ExportDefaultDeclaration { .. } => true,
        NodeKind::Function { expression } => !*expression,
        NodeKind::Class { expression, .. } => !*expression,
        _ => false,
    };
    if stmt_or_decl {
        return false;
    }
    let is_obj = match &t.nodes[cur].kind {
        NodeKind::ObjectExpression { .. } => true,
        _ => false,
    };
    if is_obj && check_object_expression(t, path) {
        return true;
    }
    if check_class_super(t, path) {
        return true;
    }
    if with_export && export_default_rule(t, path) {
        return true;
    }
    check_kind(t, path)
}

/// The export-default rule against the parent.
fn export_default_rule(t: &Tree, path: &Vec<usize>) -> (r: bool)
    requires
        tree_wf(*t),
        path_wf(*t, path@),
    ensures
        r == spec_export_default_rule(*t, path@),
    decreases path@[path@.len() - 1] as int, 2int,
{
    if path.len() < 2 {
        return false;
    }
    let p = path[path.len() - 2];
    proof {
        assert(node_wf(t.nodes@[p as int], p as int));
    }
    match &t.nodes[p].kind {
        NodeKind::ExportDefaultDeclaration { expression: Some(e) } => {
            let is_seq = match &t.nodes[*e].kind {
                NodeKind::SequenceExpression { .. } => true,
                _ => false,
            };
            if is_seq {
                true
            } else {
                should_wrap_function_for_export_default(t, path)
            }
        },
        _ => false,
    }
}

/// One step of the naked-left-side walk under an export default.
fn should_wrap_function_for_export_default(t: &Tree, path: &Vec<usize>) -> (r: bool)
    requires
        tree_wf(*t),
        path_wf(*t, path@),
    ensures
        r == spec_should_wrap_export(*t, path@),
    decreases path@[path@.len() - 1] as int, 1int,
{
    let cur = path[path.len() - 1];
    let b = if path.len() >= 2 {
        match &t.nodes[path[path.len() - 2]].kind {
            NodeKind::ExportDefaultDeclaration { .. } => true,
            _ => false,
        }
    } else {
        false
    };
    if is_function_expression_exec(t, cur) || is_class_expression_exec(t, cur) {
        if b {
            return true;
        }
        return !need_parens_rec(t, path, false);
    }
    if !has_naked_left_side(t, cur) {
        return false;
    }
    if !b && need_parens_rec(t, path, false) {
        return false;
    }
    match get_left_side_path_name(t, cur) {
        Some(l) => {
            let p2 = push_path(path, l);
            should_wrap_function_for_export_default(t, &p2)
        },
        None => false,
    }
}

/// Whether the node at the end of `path` must be re-emitted inside
/// parentheses so that the printed text parses back to the same tree.
pub fn need_parens(t: &Tree, path: &Vec<usize>) -> (r: bool)
    requires
        tree_wf(*t),
        path_wf(*t, path@),
    ensures
        r == spec_need_parens(*t, path@),
{
    need_parens_rec(t, path, true)
}


} // verus!
