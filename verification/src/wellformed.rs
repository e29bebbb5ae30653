//! Every element that the grammar yields is well formed.

use crate::combinators::spec_repeat;
use crate::element::{valid_attribute, valid_attributes, valid_element, valid_name, valid_value};
use crate::grammar::{
    lemma_element_tag_rest, spaced_attribute, spec_children, spec_element, spec_element_body,
    spec_element_tag, spec_open_element, spec_parent_element, spec_quoted_string,
    spec_single_element, spec_spaced_attribute,
};
use crate::parser::{spec_identifier, spec_match_literal};
use crate::text::{all_but, identifier_class, is_identifier_char, leading, lemma_leading};
use crate::whitespace::{lemma_trim_start_rest, spec_space1, trim_start};
use vstd::prelude::*;

verus! {

/// What `identifier` yields is an identifier.
pub proof fn lemma_identifier_is_valid(input: Seq<char>)
    ensures
        spec_identifier(input) matches Ok((_, name)) ==> valid_name(name),
{
    if let Ok((_, name)) = spec_identifier(input) {
        let tail = input.drop_first();
        lemma_leading(tail, identifier_class());
        assert forall|i: int| 0 < i < name.len() implies is_identifier_char(#[trigger] name[i]) by {
            assert(name[i] == tail[i - 1]);
            assert(identifier_class()(tail[i - 1]));
        }
    }
}

/// What `quoted_string` yields holds no `"`.
pub proof fn lemma_quoted_string_is_valid(input: Seq<char>)
    ensures
        spec_quoted_string(input) matches Ok((_, value)) ==> valid_value(value),
{
    if let Ok((body, _)) = spec_match_literal("\""@, input) {
        lemma_leading(body, all_but('"'));
        let n = leading(body, all_but('"')) as int;
        assert forall|i: int| 0 <= i < n implies #[trigger] body.take(n)[i] != '"' by {
            assert(all_but('"')(body[i]));
        }
    }
}

/// The attributes that `attributes` yields have identifiers as names and
/// values without `"`.
pub proof fn lemma_attributes_are_valid(input: Seq<char>)
    ensures
        valid_attributes(spec_repeat(spaced_attribute(), input).1),
    decreases input.len(),
{
    if let Ok((rest, attribute)) = spec_spaced_attribute(input) {
        if rest.len() < input.len() {
            if let Ok((after_space, _)) = spec_space1(input) {
                lemma_identifier_is_valid(after_space);
                if let Ok((after_name, _)) = spec_identifier(after_space) {
                    if let Ok((after_equals, _)) = spec_match_literal("="@, after_name) {
                        lemma_quoted_string_is_valid(after_equals);
                    }
                }
            }
            lemma_attributes_are_valid(rest);
            let others = spec_repeat(spaced_attribute(), rest).1;
            let all = seq![attribute] + others;
            assert forall|i: int| 0 <= i < all.len() implies valid_attribute(#[trigger] all[i]) by {
                if i > 0 {
                    assert(all[i] == others[i - 1]);
                }
            }
        }
    }
}

/// The element that a tag yields has an identifier as its name, valid
/// attributes and no children.
pub proof fn lemma_element_tag_is_valid(closing: Seq<char>, input: Seq<char>)
    ensures
        spec_element_tag(closing, input) matches Ok((_, element)) ==> valid_element(element),
{
    if let Ok((after_open, _)) = spec_match_literal("<"@, input) {
        lemma_identifier_is_valid(after_open);
        if let Ok((after_name, _)) = spec_identifier(after_open) {
            lemma_attributes_are_valid(after_name);
        }
    }
}

/// Every element that `element` yields is well formed: its name and the names
/// of its attributes are identifiers, no attribute value holds a `"`, and the
/// same holds of all its children.
pub proof fn lemma_parsed_element_is_valid(input: Seq<char>)
    ensures
        spec_element(input) matches Ok((_, element)) ==> valid_element(element),
    decreases input.len(), 2int,
{
    let start = trim_start(input);
    lemma_trim_start_rest(input);
    lemma_element_tag_is_valid("/>"@, start);
    if spec_single_element(start) is Err {
        lemma_parent_element_is_valid(start);
    }
}

/// Every element that `parent_element` yields is well formed.
pub proof fn lemma_parent_element_is_valid(input: Seq<char>)
    ensures
        spec_parent_element(input) matches Ok((_, element)) ==> valid_element(element),
    decreases input.len(), 1int,
{
    lemma_element_tag_is_valid(">"@, input);
    lemma_element_tag_rest(">"@, input);
    if let Ok((body, opened)) = spec_open_element(input) {
        lemma_children_are_valid(body);
        if let Ok((_, element)) = spec_element_body(opened, body) {
            assert(valid_element(opened));
            assert(element.children == spec_children(body).1);
        }
    }
}

/// All the elements that are parsed as children are well formed.
pub proof fn lemma_children_are_valid(input: Seq<char>)
    ensures
        forall|i: int|
            0 <= i < spec_children(input).1.len() ==> valid_element(
                #[trigger] spec_children(input).1[i],
            ),
    decreases input.len(), 3int,
{
    lemma_parsed_element_is_valid(input);
    if let Ok((rest, element)) = spec_element(input) {
        if rest.len() < input.len() {
            lemma_children_are_valid(rest);
            let others = spec_children(rest).1;
            let all = seq![element] + others;
            assert forall|i: int| 0 <= i < all.len() implies valid_element(#[trigger] all[i]) by {
                if i > 0 {
                    assert(all[i] == others[i - 1]);
                }
            }
        }
    }
}

} // verus!
