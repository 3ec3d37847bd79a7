//! The array-like print policy family.
//!
//! One policy serves four syntactic shapes: array literals, tuple type
//! annotations, array destructuring patterns and array assignment targets.
//! The policy decides three things before building the doc: whether a
//! trailing comma is forced or suppressed, whether the concise fill layout
//! applies (arrays of short numeric entries), and whether the layout is
//! forced to break (a matrix of non-trivial rows).

use vstd::prelude::*;
use crate::span::Span;
use crate::syntax::{kind_of, node_wf, span_of, tree_wf, ArrayElement, NodeKind, Tree, UnaryOperator};

verus! {

/// The four shapes the policy serves, each naming its node.
pub enum Array {
    ArrayExpression(usize),
    TSTupleType(usize),
    ArrayPattern(usize),
    ArrayAssignmentTarget(usize),
}

/// Whether the enum variant agrees with the kind of the node it names.
pub open spec fn array_matches(t: Tree, a: Array) -> bool {
    match a {
        Array::ArrayExpression(i) => i < t.nodes@.len() && (kind_of(t, i as int)
            matches NodeKind::ArrayExpression { .. }),
        Array::TSTupleType(i) => i < t.nodes@.len() && (kind_of(t, i as int)
            matches NodeKind::TSTupleType { .. }),
        Array::ArrayPattern(i) => i < t.nodes@.len() && (kind_of(t, i as int)
            matches NodeKind::ArrayPattern { .. }),
        Array::ArrayAssignmentTarget(i) => i < t.nodes@.len() && (kind_of(t, i as int)
            matches NodeKind::ArrayAssignmentTarget { .. }),
    }
}

/// The node an `Array` names.
pub open spec fn array_node(a: Array) -> usize {
    match a {
        Array::ArrayExpression(i) => i,
        Array::TSTupleType(i) => i,
        Array::ArrayPattern(i) => i,
        Array::ArrayAssignmentTarget(i) => i,
    }
}

/// The element count of the array-like node `i`.
pub open spec fn spec_array_len(t: Tree, i: int) -> int {
    match kind_of(t, i) {
        NodeKind::ArrayExpression { elements } => elements@.len() as int,
        NodeKind::TSTupleType { element_types } => element_types@.len() as int,
        NodeKind::ArrayPattern { elements, .. } => elements@.len() as int,
        NodeKind::ArrayAssignmentTarget { elements, .. } => elements@.len() as int,
        _ => 0,
    }
}

/// The elements of an array literal, empty for any other kind.
pub open spec fn expr_elems(t: Tree, i: int) -> Seq<ArrayElement> {
    match kind_of(t, i) {
        NodeKind::ArrayExpression { elements } => elements@,
        _ => Seq::empty(),
    }
}

/// The element types of a tuple type, empty for any other kind.
pub open spec fn tuple_elems(t: Tree, i: int) -> Seq<usize> {
    match kind_of(t, i) {
        NodeKind::TSTupleType { element_types } => element_types@,
        _ => Seq::empty(),
    }
}

/// Whether one array element is a bare numeric literal or a plus/minus
/// unary around one.
pub open spec fn concise_elem_ok(t: Tree, e: ArrayElement) -> bool {
    match e {
        ArrayElement::Item(id) => id < t.nodes@.len() && match kind_of(t, id as int) {
            NodeKind::NumberLiteral { .. } => true,
            NodeKind::UnaryExpression { operator, argument } => (operator
                == UnaryOperator::UnaryPlus || operator == UnaryOperator::UnaryNegation)
                && (kind_of(t, argument as int) matches NodeKind::NumberLiteral { .. }),
            _ => false,
        },
        ArrayElement::Elision => false,
    }
}

/// The concise ("fill") layout applies only to array literals with more
/// than one element, all of them numeric or unary-numeric.
pub open spec fn spec_is_concisely_printed(t: Tree, a: Array) -> bool {
    match a {
        Array::ArrayExpression(i) => (kind_of(t, i as int)
            matches NodeKind::ArrayExpression { .. }) && expr_elems(t, i as int).len() > 1
            && forall|k: int|
            0 <= k < expr_elems(t, i as int).len() ==> concise_elem_ok(
                t,
                #[trigger] expr_elems(t, i as int)[k],
            ),
        _ => false,
    }
}

/// Whether an array-literal element is an expression (not a hole and not
/// a spread) of the given bracketed kind with more than one entry, and
/// agrees in kind with its successor when that is also an expression.
pub open spec fn break_elem_ok(t: Tree, elems: Seq<ArrayElement>, k: int) -> bool {
    match elems[k] {
        ArrayElement::Elision => false,
        ArrayElement::Item(id) => id < t.nodes@.len() && {
            let pair_ok = if k + 1 < elems.len() {
                match elems[k + 1] {
                    ArrayElement::Item(nid) => nid < t.nodes@.len() && (match (
                        kind_of(t, id as int),
                        kind_of(t, nid as int),
                    ) {
                        (
                            NodeKind::ArrayExpression { .. },
                            NodeKind::ArrayExpression { .. },
                        ) => true,
                        (
                            NodeKind::ObjectExpression { .. },
                            NodeKind::ObjectExpression { .. },
                        ) => true,
                        (NodeKind::SpreadElement { .. }, _) => false,
                        (_, NodeKind::SpreadElement { .. }) => false,
                        _ => false,
                    }),
                    ArrayElement::Elision => true,
                }
            } else {
                true
            };
            pair_ok && match kind_of(t, id as int) {
                NodeKind::ArrayExpression { elements } => elements@.len() > 1,
                NodeKind::ObjectExpression { properties } => properties@.len() > 1,
                _ => false,
            }
        },
    }
}

/// Whether a tuple element is itself a tuple with more than one entry,
/// agreeing in kind with its successor.
pub open spec fn break_tuple_elem_ok(t: Tree, ids: Seq<usize>, k: int) -> bool {
    ids[k] < t.nodes@.len() && {
        let pair_ok = if k + 1 < ids.len() {
            ids[k + 1] < t.nodes@.len() && (match (
                kind_of(t, ids[k] as int),
                kind_of(t, ids[k + 1] as int),
            ) {
                (NodeKind::TSTupleType { .. }, NodeKind::TSTupleType { .. }) => true,
                _ => false,
            })
        } else {
            true
        };
        pair_ok && match kind_of(t, ids[k] as int) {
            NodeKind::TSTupleType { element_types } => element_types@.len() > 1,
            _ => false,
        }
    }
}

/// The forced-break heuristic: an array or tuple of more than one element
/// prints one row per line when every row is a non-trivial bracketed
/// entry of the same kind as its neighbour. Patterns and assignment
/// targets never force this break.
pub open spec fn spec_should_break(t: Tree, a: Array) -> bool {
    spec_array_len(t, array_node(a) as int) > 1 && match a {
        Array::ArrayExpression(i) => (kind_of(t, i as int)
            matches NodeKind::ArrayExpression { .. }) && forall|k: int|
            0 <= k < expr_elems(t, i as int).len() ==> #[trigger] break_elem_ok(
                t,
                expr_elems(t, i as int),
                k,
            ),
        Array::TSTupleType(i) => (kind_of(t, i as int) matches NodeKind::TSTupleType { .. })
            && forall|k: int|
            0 <= k < tuple_elems(t, i as int).len() ==> #[trigger] break_tuple_elem_ok(
                t,
                tuple_elems(t, i as int),
                k,
            ),
        Array::ArrayPattern(_) => false,
        Array::ArrayAssignmentTarget(_) => false,
    }
}

impl Array {
    /// The number of element slots.
    pub fn len(&self, t: &Tree) -> (n: usize)
        requires
            array_matches(*t, *self),
        ensures
            n == spec_array_len(*t, array_node(*self) as int),
    {
        match self {
            Array::ArrayExpression(i) => {
                match &t.nodes[*i].kind {
                    NodeKind::ArrayExpression { elements } => elements.len(),
                    _ => 0,
                }
            },
            Array::TSTupleType(i) => {
                match &t.nodes[*i].kind {
                    NodeKind::TSTupleType { element_types } => element_types.len(),
                    _ => 0,
                }
            },
            Array::ArrayPattern(i) => {
                match &t.nodes[*i].kind {
                    NodeKind::ArrayPattern { elements, .. } => elements.len(),
                    _ => 0,
                }
            },
            Array::ArrayAssignmentTarget(i) => {
                match &t.nodes[*i].kind {
                    NodeKind::ArrayAssignmentTarget { elements, .. } => elements.len(),
                    _ => 0,
                }
            },
        }
    }

    /// The source span of the node.
    pub fn span(&self, t: &Tree) -> (s: Span)
        requires
            array_matches(*t, *self),
        ensures
            s == span_of(*t, array_node(*self) as int),
    {
        match self {
            Array::ArrayExpression(i) => t.nodes[*i].span,
            Array::TSTupleType(i) => t.nodes[*i].span,
            Array::ArrayPattern(i) => t.nodes[*i].span,
            Array::ArrayAssignmentTarget(i) => t.nodes[*i].span,
        }
    }

    /// Whether the concise fill layout applies.
    pub fn is_concisely_printed(&self, t: &Tree) -> (r: bool)
        requires
            tree_wf(*t),
            array_matches(*t, *self),
        ensures
            r == spec_is_concisely_printed(*t, *self),
    {
        let i = match self {
            Array::ArrayExpression(i) => *i,
            _ => {
                return false;
            },
        };
        proof {
            assert(node_wf(t.nodes@[i as int], i as int));
        }
        match &t.nodes[i].kind {
            NodeKind::ArrayExpression { elements } => {
                if elements.len() <= 1 {
                    return false;
                }
                let mut k: usize = 0;
                while k < elements.len()
                    invariant
                        tree_wf(*t),
                        i < t.nodes@.len(),
                        *self == Array::ArrayExpression(i),
                        (kind_of(*t, i as int) matches NodeKind::ArrayExpression { .. }),
                        elements@ == expr_elems(*t, i as int),
                        k <= elements@.len(),
                        forall|j: int| 0 <= j < k ==> concise_elem_ok(*t, #[trigger] elements@[j]),
                    decreases elements@.len() - k,
                {
                    let ok = match &elements[k] {
                        ArrayElement::Item(id) => {
                            proof {
                                assert(node_wf(t.nodes@[i as int], i as int));
                                assert(crate::syntax::elems_ok(elements@, i as int));
                                assert(crate::syntax::elem_ok(elements@[k as int], i as int));
                            }
                            match &t.nodes[*id].kind {
                                NodeKind::NumberLiteral { .. } => true,
                                NodeKind::UnaryExpression { operator, argument } => {
                                    proof {
                                        assert(node_wf(t.nodes@[*id as int], *id as int));
                                    }
                                    (*operator == UnaryOperator::UnaryPlus || *operator
                                        == UnaryOperator::UnaryNegation) && (match
                                        &t.nodes[*argument].kind {
                                        NodeKind::NumberLiteral { .. } => true,
                                        _ => false,
                                    })
                                },
                                _ => false,
                            }
                        },
                        ArrayElement::Elision => false,
                    };
                    if !ok {
                        proof {
                            assert(!concise_elem_ok(*t, expr_elems(*t, i as int)[k as int]));
                        }
                        return false;
                    }
                    k += 1;
                }
                true
            },
            _ => false,
        }
    }

    /// Whether the forced-break heuristic applies.
    pub fn should_break(&self, t: &Tree) -> (r: bool)
        requires
            tree_wf(*t),
            array_matches(*t, *self),
        ensures
            r == spec_should_break(*t, *self),
    {
        if self.len(t) <= 1 {
            return false;
        }
        match self {
            Array::ArrayExpression(i) => {
                proof {
                    assert(node_wf(t.nodes@[*i as int], *i as int));
                }
                match &t.nodes[*i].kind {
                    NodeKind::ArrayExpression { elements } => {
                        let mut k: usize = 0;
                        while k < elements.len()
                            invariant
                                tree_wf(*t),
                                *i < t.nodes@.len(),
                                *self == Array::ArrayExpression(*i),
                                (kind_of(*t, *i as int) matches NodeKind::ArrayExpression { .. }),
                                elements@ == expr_elems(*t, *i as int),
                                k <= elements@.len(),
                                forall|j: int|
                                    0 <= j < k ==> #[trigger] break_elem_ok(*t, elements@, j),
                            decreases elements@.len() - k,
                        {
                            if !break_elem_check(t, *i, elements, k) {
                                proof {
                                    assert(!break_elem_ok(
                                        *t,
                                        expr_elems(*t, *i as int),
                                        k as int,
                                    ));
                                }
                                return false;
                            }
                            k += 1;
                        }
                        true
                    },
                    _ => false,
                }
            },
            Array::TSTupleType(i) => {
                proof {
                    assert(node_wf(t.nodes@[*i as int], *i as int));
                }
                match &t.nodes[*i].kind {
                    NodeKind::TSTupleType { element_types } => {
                        let mut k: usize = 0;
                        while k < element_types.len()
                            invariant
                                tree_wf(*t),
                                *i < t.nodes@.len(),
                                *self == Array::TSTupleType(*i),
                                (kind_of(*t, *i as int) matches NodeKind::TSTupleType { .. }),
                                element_types@ == tuple_elems(*t, *i as int),
                                k <= element_types@.len(),
                                forall|j: int|
                                    0 <= j < k ==> #[trigger] break_tuple_elem_ok(
                                        *t,
                                        element_types@,
                                        j,
                                    ),
                            decreases element_types@.len() - k,
                        {
                            if !break_tuple_elem_check(t, *i, element_types, k) {
                                proof {
                                    assert(!break_tuple_elem_ok(
                                        *t,
                                        tuple_elems(*t, *i as int),
                                        k as int,
                                    ));
                                }
                                return false;
                            }
                            k += 1;
                        }
                        true
                    },
                    _ => false,
                }
            },
            Array::ArrayPattern(_) => false,
            Array::ArrayAssignmentTarget(_) => false,
        }
    }
}

/// One element of the forced-break check for array literals.
fn break_elem_check(t: &Tree, i: usize, elems: &Vec<ArrayElement>, k: usize) -> (r: bool)
    requires
        tree_wf(*t),
        i < t.nodes@.len(),
        elems@ == expr_elems(*t, i as int),
        (kind_of(*t, i as int) matches NodeKind::ArrayExpression { .. }),
        k < elems@.len(),
    ensures
        r == break_elem_ok(*t, elems@, k as int),
{
    let n = elems.len();
    proof {
        assert(node_wf(t.nodes@[i as int], i as int));
        assert(crate::syntax::elems_ok(elems@, i as int));
        assert(crate::syntax::elem_ok(elems@[k as int], i as int));
        if k + 1 < elems@.len() {
            assert(crate::syntax::elem_ok(elems@[k as int + 1], i as int));
        }
    }
    let id = match &elems[k] {
        ArrayElement::Item(id) => *id,
        ArrayElement::Elision => {
            return false;
        },
    };
    let pair_ok: bool = if k + 1 < n {
        match &elems[k + 1] {
            ArrayElement::Item(nid) => {
                match (&t.nodes[id].kind, &t.nodes[*nid].kind) {
                    (NodeKind::ArrayExpression { .. }, NodeKind::ArrayExpression { .. }) => true,
                    (NodeKind::ObjectExpression { .. }, NodeKind::ObjectExpression { .. }) => true,
                    _ => false,
                }
            },
            ArrayElement::Elision => true,
        }
    } else {
        true
    };
    if !pair_ok {
        return false;
    }
    match &t.nodes[id].kind {
        NodeKind::ArrayExpression { elements } => elements.len() > 1,
        NodeKind::ObjectExpression { properties } => properties.len() > 1,
        _ => false,
    }
}

/// One element of the forced-break check for tuple types.
fn break_tuple_elem_check(t: &Tree, i: usize, ids: &Vec<usize>, k: usize) -> (r: bool)
    requires
        tree_wf(*t),
        i < t.nodes@.len(),
        ids@ == tuple_elems(*t, i as int),
        (kind_of(*t, i as int) matches NodeKind::TSTupleType { .. }),
        k < ids@.len(),
    ensures
        r == break_tuple_elem_ok(*t, ids@, k as int),
{
    let n = ids.len();
    proof {
        assert(node_wf(t.nodes@[i as int], i as int));
        assert(crate::syntax::list_ok(ids@, i as int));
    }
    let pair_ok: bool = if k + 1 < n {
        match (&t.nodes[ids[k]].kind, &t.nodes[ids[k + 1]].kind) {
            (NodeKind::TSTupleType { .. }, NodeKind::TSTupleType { .. }) => true,
            _ => false,
        }
    } else {
        true
    };
    if !pair_ok {
        return false;
    }
    match &t.nodes[ids[k]].kind {
        NodeKind::TSTupleType { element_types } => element_types.len() > 1,
        _ => false,
    }
}

} // verus!
