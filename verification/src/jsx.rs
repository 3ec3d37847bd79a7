//! A model of JSX opening elements, their attributes, and the small
//! expression forms that can appear as attribute values.
//!
//! The lint rules only need the parts of an element that decide their
//! verdicts: the element name, each attribute's name, and the shape of an
//! attribute's value. Names and literal texts are held as byte strings.

use vstd::prelude::*;
use crate::span::Span;

verus! {

/// ASCII lowercase of one byte.
pub open spec fn lower_byte(b: u8) -> u8 {
    if 65 <= b && b <= 90 {
        (b + 32) as u8
    } else {
        b
    }
}

/// ASCII lowercase of a byte string.
pub open spec fn lower_bytes(s: Seq<u8>) -> Seq<u8> {
    s.map_values(|b: u8| lower_byte(b))
}

/// An expression inside a JSX expression container, reduced to the shapes
/// the rules distinguish.
pub enum JsxExpression {
    /// A string literal and its cooked value.
    StringLiteral { value: Vec<u8> },
    /// A template literal: the raw text of each quasi, and how many
    /// interpolated expressions it has.
    TemplateLiteral { quasis: Vec<Vec<u8>>, expression_count: usize },
    /// An identifier reference.
    Identifier { name: Vec<u8> },
    /// A boolean literal.
    BooleanLiteral { value: bool },
    /// A numeric literal.
    NumericLiteral,
    /// Any other expression form.
    Other,
}

/// The value of a JSX attribute.
pub enum JsxAttributeValue {
    /// A quoted string value and its cooked text.
    StringLiteral { value: Vec<u8> },
    /// An `{...}` container; `None` stands for an empty container.
    ExpressionContainer { expression: Option<JsxExpression> },
    /// A nested element value.
    Element,
    /// A nested fragment value.
    Fragment,
}

/// One named attribute, `name` or `name=value`.
pub struct JsxAttribute {
    pub span: Span,
    pub name: Vec<u8>,
    pub value: Option<JsxAttributeValue>,
}

/// One entry of an opening element's attribute list.
pub enum JsxAttributeItem {
    Attribute(JsxAttribute),
    SpreadAttribute { span: Span },
}

/// The name of a JSX element.
pub enum JsxElementName {
    Identifier { name: Vec<u8> },
    NamespacedName,
    MemberExpression,
}

/// A JSX opening element: `<name attr ... />` or `<name attr ...>`.
pub struct JsxOpeningElement {
    pub span: Span,
    pub name: JsxElementName,
    pub attributes: Vec<JsxAttributeItem>,
}

/// Whether `item` is a named attribute whose lowercased name is `target`.
pub open spec fn attr_matches(item: JsxAttributeItem, target: Seq<u8>) -> bool {
    match item {
        JsxAttributeItem::Attribute(a) => lower_bytes(a.name@) == target,
        JsxAttributeItem::SpreadAttribute { .. } => false,
    }
}

/// The first attribute whose lowercased name is `target`, if any.
pub open spec fn find_prop(attrs: Seq<JsxAttributeItem>, target: Seq<u8>) -> Option<
    JsxAttributeItem,
>
    decreases attrs.len(),
{
    if attrs.len() == 0 {
        None
    } else if attr_matches(attrs[0], target) {
        Some(attrs[0])
    } else {
        find_prop(attrs.drop_first(), target)
    }
}

/// The value slot of an attribute item; a spread attribute has none.
pub open spec fn spec_prop_value(item: JsxAttributeItem) -> Option<JsxAttributeValue> {
    match item {
        JsxAttributeItem::Attribute(a) => a.value,
        JsxAttributeItem::SpreadAttribute { .. } => None,
    }
}

proof fn lemma_find_prop_skip(attrs: Seq<JsxAttributeItem>, target: Seq<u8>, i: int)
    requires
        0 <= i <= attrs.len(),
        forall|j: int| 0 <= j < i ==> !attr_matches(attrs[j], target),
    ensures
        find_prop(attrs, target) == find_prop(attrs.skip(i), target),
    decreases i,
{
    if i > 0 {
        assert(attrs.skip(1) =~= attrs.drop_first());
        lemma_find_prop_skip(attrs.drop_first(), target, i - 1);
        assert(attrs.drop_first().skip(i - 1) =~= attrs.skip(i));
    } else {
        assert(attrs.skip(0) =~= attrs);
    }
}

/// Exact byte-string equality.
pub fn bytes_eq(a: &Vec<u8>, b: &Vec<u8>) -> (r: bool)
    ensures
        r == (a@ == b@),
{
    if a.len() != b.len() {
        return false;
    }
    let mut i: usize = 0;
    while i < a.len()
        invariant
            i <= a.len(),
            a.len() == b.len(),
            forall|j: int| 0 <= j < i ==> a@[j] == b@[j],
        decreases a.len() - i,
    {
        if a[i] != b[i] {
            return false;
        }
        i += 1;
    }
    proof {
        assert(a@ =~= b@);
    }
    true
}

/// Whether the lowercased bytes of `name` equal `target`.
fn lower_eq(name: &Vec<u8>, target: &Vec<u8>) -> (r: bool)
    ensures
        r == (lower_bytes(name@) == target@),
{
    if name.len() != target.len() {
        return false;
    }
    let mut i: usize = 0;
    while i < name.len()
        invariant
            i <= name.len(),
            name.len() == target.len(),
            forall|j: int| 0 <= j < i ==> lower_byte(name@[j]) == target@[j],
        decreases name.len() - i,
    {
        let b = name[i];
        let low: u8 = if 65 <= b && b <= 90 {
            b + 32
        } else {
            b
        };
        if low != target[i] {
            return false;
        }
        i += 1;
    }
    proof {
        assert(lower_bytes(name@) =~= target@);
    }
    true
}

fn attr_item_matches(item: &JsxAttributeItem, target: &Vec<u8>) -> (r: bool)
    ensures
        r == attr_matches(*item, target@),
{
    match item {
        JsxAttributeItem::Attribute(a) => lower_eq(&a.name, target),
        JsxAttributeItem::SpreadAttribute { .. } => false,
    }
}

/// Index of the first attribute whose lowercased name equals `target`.
pub fn has_jsx_prop_lowercase(el: &JsxOpeningElement, target: &Vec<u8>) -> (r: Option<usize>)
    ensures
        match r {
            Some(i) => i < el.attributes@.len() && find_prop(el.attributes@, target@) == Some(
                el.attributes@[i as int],
            ) && attr_matches(el.attributes@[i as int], target@),
            None => find_prop(el.attributes@, target@) is None,
        },
{
    let ghost attrs = el.attributes@;
    let mut i: usize = 0;
    while i < el.attributes.len()
        invariant
            i <= attrs.len(),
            attrs == el.attributes@,
            forall|j: int| 0 <= j < i ==> !attr_matches(attrs[j], target@),
        decreases attrs.len() - i,
    {
        if attr_item_matches(&el.attributes[i], target) {
            proof {
                lemma_find_prop_skip(attrs, target@, i as int);
                assert(attrs.skip(i as int)[0] == attrs[i as int]);
            }
            return Some(i);
        }
        i += 1;
    }
    proof {
        lemma_find_prop_skip(attrs, target@, attrs.len() as int);
        assert(attrs.skip(attrs.len() as int).len() == 0);
    }
    None
}

} // verus!
