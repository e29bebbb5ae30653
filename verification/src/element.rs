//! The element tree that the grammar produces.

use crate::combinators::lemma_deep_view_push;
use crate::text::{is_ascii_alphabetic, is_identifier_char};
use vstd::prelude::*;

verus! {

/// One element of a document: its name, its attributes in the order in which
/// they were written, and the elements nested in it.
#[derive(Debug, PartialEq, Eq)]
pub struct Element {
    pub name: String,
    pub attributes: Vec<(String, String)>,
    pub children: Vec<Element>,
}

/// An `Element` as a mathematical value.
pub struct ElementView {
    pub name: Seq<char>,
    pub attributes: Seq<(Seq<char>, Seq<char>)>,
    pub children: Seq<ElementView>,
}

/// The mathematical value of an element.
pub open spec fn element_view(element: Element) -> ElementView
    decreases element,
{
    ElementView {
        name: element.name@,
        attributes: element.attributes.deep_view(),
        children: Seq::new(
            element.children@.len(),
            |i: int|
                if 0 <= i < element.children@.len() {
                    element_view(element.children@[i])
                } else {
                    arbitrary()
                },
        ),
    }
}

impl DeepView for Element {
    type V = ElementView;

    open spec fn deep_view(&self) -> ElementView {
        element_view(*self)
    }
}

impl View for Element {
    type V = ElementView;

    open spec fn view(&self) -> ElementView {
        element_view(*self)
    }
}

impl Clone for Element {
    fn clone(&self) -> (copy: Element)
        ensures
            copy@ == self@,
        decreases self,
    {
        let mut attributes: Vec<(String, String)> = Vec::new();
        let mut i: usize = 0;
        while i < self.attributes.len()
            invariant
                i <= self.attributes.len(),
                attributes.deep_view() == self.attributes.deep_view().take(i as int),
            decreases self.attributes.len() - i,
        {
            let ghost before = attributes;
            let pair = (self.attributes[i].0.clone(), self.attributes[i].1.clone());
            attributes.push(pair);
            proof {
                lemma_deep_view_push(before, attributes, pair);
                assert(self.attributes.deep_view().take(i + 1) =~= self.attributes.deep_view().take(
                    i as int,
                ).push(pair.deep_view()));
            }
            i += 1;
        }
        let mut children: Vec<Element> = Vec::new();
        let mut j: usize = 0;
        while j < self.children.len()
            invariant
                j <= self.children.len(),
                children.deep_view() == self.children.deep_view().take(j as int),
            decreases self.children.len() - j,
        {
            let ghost before = children;
            let child = self.children[j].clone();
            children.push(child);
            proof {
                lemma_deep_view_push(before, children, child);
                assert(self.children.deep_view().take(j + 1) =~= self.children.deep_view().take(
                    j as int,
                ).push(child.deep_view()));
            }
            j += 1;
        }
        let copy = Element { name: self.name.clone(), attributes, children };
        proof {
            assert(self.attributes.deep_view().take(self.attributes.len() as int)
                =~= self.attributes.deep_view());
            assert(self.children.deep_view().take(self.children.len() as int)
                =~= self.children.deep_view());
            assert(element_view(copy).children =~= children.deep_view());
            assert(element_view(*self).children =~= self.children.deep_view());
        }
        copy
    }
}

/// `name` is an identifier and nothing else.
pub open spec fn valid_name(name: Seq<char>) -> bool {
    &&& name.len() > 0
    &&& is_ascii_alphabetic(name[0])
    &&& forall|i: int| 0 < i < name.len() ==> is_identifier_char(#[trigger] name[i])
}

/// `value` can stand between two `"`.
pub open spec fn valid_value(value: Seq<char>) -> bool {
    forall|i: int| 0 <= i < value.len() ==> #[trigger] value[i] != '"'
}

/// The name is an identifier and the value holds no `"`.
pub open spec fn valid_attribute(attribute: (Seq<char>, Seq<char>)) -> bool {
    valid_name(attribute.0) && valid_value(attribute.1)
}

/// Every attribute is valid.
pub open spec fn valid_attributes(attributes: Seq<(Seq<char>, Seq<char>)>) -> bool {
    forall|i: int| 0 <= i < attributes.len() ==> valid_attribute(#[trigger] attributes[i])
}

/// The element is well formed: every name in the tree is an identifier and no
/// attribute value holds a `"`.
pub open spec fn valid_element(element: ElementView) -> bool
    decreases element,
{
    &&& valid_name(element.name)
    &&& valid_attributes(element.attributes)
    &&& forall|i: int|
        0 <= i < element.children.len() ==> valid_element(#[trigger] element.children[i])
}

} // verus!
