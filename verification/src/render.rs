//! Documents written out from element trees, as mathematical text: what the
//! parsers are held against.

use crate::element::ElementView;
use vstd::prelude::*;

verus! {

/// ` name="value"`.
pub open spec fn render_attribute(attribute: (Seq<char>, Seq<char>)) -> Seq<char> {
    seq![' '] + attribute.0 + seq!['=', '"'] + attribute.1 + seq!['"']
}

/// The attributes one after the other, each as `render_attribute` has it.
pub open spec fn render_attributes(attributes: Seq<(Seq<char>, Seq<char>)>) -> Seq<char>
    decreases attributes.len(),
{
    if attributes.len() == 0 {
        Seq::empty()
    } else {
        render_attribute(attributes[0]) + render_attributes(attributes.drop_first())
    }
}

/// `<name attributes/>` for an element without children, else
/// `<name attributes>`, the children and `</name>`.
pub open spec fn render_element(element: ElementView) -> Seq<char>
    decreases element, element.children.len() + 1,
{
    let start = seq!['<'] + element.name + render_attributes(element.attributes);
    if element.children.len() == 0 {
        start + seq!['/', '>']
    } else {
        start + seq!['>'] + render_children(element, 0) + seq!['<', '/'] + element.name + seq![
            '>',
        ]
    }
}

/// The children of `element` from the one at `from` on, one after the other.
pub open spec fn render_children(element: ElementView, from: int) -> Seq<char>
    decreases element, element.children.len() - from,
{
    if 0 <= from < element.children.len() {
        render_element(element.children[from]) + render_children(element, from + 1)
    } else {
        Seq::empty()
    }
}

} // verus!
