//! The grammar as mathematical functions on text: what each parser of the
//! grammar returns on each input.

use crate::combinators::{lemma_repeat_rest, spec_repeat};
use crate::element::ElementView;
use crate::parser::{
    is_rest_of, lemma_identifier_len, lemma_rest_of_rest, lemma_skip_is_rest, rest_of,
    spec_identifier, spec_match_literal, takes_some, Identifier, Parser, SpecResult,
};
use crate::text::{all_but, leading, lemma_leading, whitespace_class};
use crate::whitespace::{lemma_trim_start_rest, spec_space1, trim_start};
use vstd::prelude::*;

verus! {

/// A `"`, the characters up to the next `"`, and that `"`; the value is what
/// stands between the two.
pub open spec fn spec_quoted_string(input: Seq<char>) -> SpecResult<Seq<char>> {
    match spec_match_literal("\""@, input) {
        Ok((body, _)) => {
            let n = leading(body, all_but('"')) as int;
            match spec_match_literal("\""@, body.skip(n)) {
                Ok((rest, _)) => Ok((rest, body.take(n))),
                Err(rest) => Err(rest),
            }
        },
        Err(rest) => Err(rest),
    }
}

/// An identifier, `=` and a quoted string; the value is the name and the
/// string.
pub open spec fn spec_attribute_pair(input: Seq<char>) -> SpecResult<(Seq<char>, Seq<char>)> {
    match spec_identifier(input) {
        Ok((after_name, name)) => match spec_match_literal("="@, after_name) {
            Ok((after_equals, _)) => match spec_quoted_string(after_equals) {
                Ok((rest, value)) => Ok((rest, (name, value))),
                Err(rest) => Err(rest),
            },
            Err(rest) => Err(rest),
        },
        Err(rest) => Err(rest),
    }
}

/// One or more whitespace characters and an attribute pair; the value is the
/// pair.
pub open spec fn spec_spaced_attribute(input: Seq<char>) -> SpecResult<(Seq<char>, Seq<char>)> {
    match spec_space1(input) {
        Ok((rest, _)) => spec_attribute_pair(rest),
        Err(rest) => Err(rest),
    }
}

/// `spec_spaced_attribute` as a value.
pub open spec fn spaced_attribute() -> spec_fn(Seq<char>) -> SpecResult<(Seq<char>, Seq<char>)> {
    |input: Seq<char>| spec_spaced_attribute(input)
}

/// Attribute pairs, each after whitespace, as far as they go; the value is the
/// pairs in the order in which they stand.
pub open spec fn spec_attributes(input: Seq<char>) -> SpecResult<Seq<(Seq<char>, Seq<char>)>> {
    Ok(spec_repeat(spaced_attribute(), input))
}

/// `<`, an identifier and attributes; the value is the name and the
/// attributes.
pub open spec fn spec_element_start(input: Seq<char>) -> SpecResult<
    (Seq<char>, Seq<(Seq<char>, Seq<char>)>),
> {
    match spec_match_literal("<"@, input) {
        Ok((after_open, _)) => match spec_identifier(after_open) {
            Ok((after_name, name)) => match spec_attributes(after_name) {
                Ok((rest, attributes)) => Ok((rest, (name, attributes))),
                Err(rest) => Err(rest),
            },
            Err(rest) => Err(rest),
        },
        Err(rest) => Err(rest),
    }
}

/// An element start and `closing`; the value is an element without children.
pub open spec fn spec_element_tag(closing: Seq<char>, input: Seq<char>) -> SpecResult<ElementView> {
    match spec_element_start(input) {
        Ok((after_start, (name, attributes))) => match spec_match_literal(closing, after_start) {
            Ok((rest, _)) => Ok((rest, ElementView { name, attributes, children: Seq::empty() })),
            Err(rest) => Err(rest),
        },
        Err(rest) => Err(rest),
    }
}

/// An element that closes itself: an element start and `/>`.
pub open spec fn spec_single_element(input: Seq<char>) -> SpecResult<ElementView> {
    spec_element_tag("/>"@, input)
}

/// The opening tag of an element with children: an element start and `>`.
pub open spec fn spec_open_element(input: Seq<char>) -> SpecResult<ElementView> {
    spec_element_tag(">"@, input)
}

/// The closing tag of the element `expected_name`: `</`, that name and `>`.
/// Another name fails on the whole tag.
pub open spec fn spec_close_element(expected_name: Seq<char>, input: Seq<char>) -> SpecResult<
    Seq<char>,
> {
    match spec_match_literal("</"@, input) {
        Ok((after_open, _)) => match spec_identifier(after_open) {
            Ok((after_name, name)) => match spec_match_literal(">"@, after_name) {
                Ok((rest, _)) => if name == expected_name {
                    Ok((rest, name))
                } else {
                    Err(input)
                },
                Err(rest) => Err(rest),
            },
            Err(rest) => Err(rest),
        },
        Err(rest) => Err(rest),
    }
}

/// A literal leaves a rest of the input.
pub proof fn lemma_match_literal_rest(expected: Seq<char>, input: Seq<char>)
    ensures
        is_rest_of(rest_of(spec_match_literal(expected, input)), input),
{
    if expected.is_prefix_of(input) {
        lemma_skip_is_rest(input, expected.len() as int);
    } else {
        lemma_skip_is_rest(input, 0);
    }
}

/// An identifier leaves a rest of the input, and a shorter one where it
/// succeeds.
pub proof fn lemma_identifier_rest(input: Seq<char>)
    ensures
        is_rest_of(rest_of(spec_identifier(input)), input),
        takes_some(spec_identifier(input), input),
{
    Identifier.lemma_rest(input);
    lemma_identifier_len(input);
}

/// A quoted string leaves a rest of the input.
pub proof fn lemma_quoted_string_rest(input: Seq<char>)
    ensures
        is_rest_of(rest_of(spec_quoted_string(input)), input),
{
    lemma_match_literal_rest("\""@, input);
    if let Ok((body, _)) = spec_match_literal("\""@, input) {
        let n = leading(body, all_but('"')) as int;
        lemma_leading(body, all_but('"'));
        lemma_skip_is_rest(body, n);
        lemma_match_literal_rest("\""@, body.skip(n));
        let end = rest_of(spec_match_literal("\""@, body.skip(n)));
        lemma_rest_of_rest(end, body.skip(n), body);
        lemma_rest_of_rest(end, body, input);
    }
}

/// An attribute pair leaves a rest of the input.
pub proof fn lemma_attribute_pair_rest(input: Seq<char>)
    ensures
        is_rest_of(rest_of(spec_attribute_pair(input)), input),
{
    lemma_identifier_rest(input);
    if let Ok((after_name, _)) = spec_identifier(input) {
        lemma_match_literal_rest("="@, after_name);
        let r = spec_match_literal("="@, after_name);
        lemma_rest_of_rest(rest_of(r), after_name, input);
        if let Ok((after_equals, _)) = r {
            lemma_quoted_string_rest(after_equals);
            lemma_rest_of_rest(rest_of(spec_quoted_string(after_equals)), after_equals, input);
        }
    }
}

/// An attribute pair after whitespace leaves a rest of the input, and a
/// shorter one where it succeeds.
pub proof fn lemma_spaced_attribute_rest(input: Seq<char>)
    ensures
        is_rest_of(rest_of(spec_spaced_attribute(input)), input),
        takes_some(spec_spaced_attribute(input), input),
{
    lemma_leading(input, whitespace_class());
    lemma_skip_is_rest(input, 0);
    lemma_trim_start_rest(input);
    if let Ok((rest, _)) = spec_space1(input) {
        lemma_attribute_pair_rest(rest);
        lemma_rest_of_rest(rest_of(spec_attribute_pair(rest)), rest, input);
    }
}

/// Attributes leave a rest of the input.
pub proof fn lemma_attributes_rest(input: Seq<char>)
    ensures
        is_rest_of(rest_of(spec_attributes(input)), input),
{
    assert forall|s: Seq<char>| is_rest_of(rest_of(#[trigger] spaced_attribute()(s)), s) by {
        lemma_spaced_attribute_rest(s);
    }
    lemma_repeat_rest(spaced_attribute(), input);
}

/// An element start leaves a rest of the input, and a shorter one where it
/// succeeds.
pub proof fn lemma_element_start_rest(input: Seq<char>)
    ensures
        is_rest_of(rest_of(spec_element_start(input)), input),
        takes_some(spec_element_start(input), input),
{
    lemma_match_literal_rest("<"@, input);
    if let Ok((after_open, _)) = spec_match_literal("<"@, input) {
        lemma_identifier_rest(after_open);
        lemma_rest_of_rest(rest_of(spec_identifier(after_open)), after_open, input);
        if let Ok((after_name, _)) = spec_identifier(after_open) {
            lemma_attributes_rest(after_name);
            lemma_rest_of_rest(rest_of(spec_attributes(after_name)), after_name, input);
        }
    }
}

/// A tag leaves a rest of the input, and a shorter one where it succeeds.
pub proof fn lemma_element_tag_rest(closing: Seq<char>, input: Seq<char>)
    ensures
        is_rest_of(rest_of(spec_element_tag(closing, input)), input),
        takes_some(spec_element_tag(closing, input), input),
{
    lemma_element_start_rest(input);
    if let Ok((after_start, _)) = spec_element_start(input) {
        lemma_match_literal_rest(closing, after_start);
        lemma_rest_of_rest(rest_of(spec_match_literal(closing, after_start)), after_start, input);
    }
}

/// A closing tag leaves a rest of the input, and a shorter one where it
/// succeeds.
pub proof fn lemma_close_element_rest(expected_name: Seq<char>, input: Seq<char>)
    ensures
        is_rest_of(rest_of(spec_close_element(expected_name, input)), input),
        takes_some(spec_close_element(expected_name, input), input),
{
    lemma_skip_is_rest(input, 0);
    lemma_match_literal_rest("</"@, input);
    if let Ok((after_open, _)) = spec_match_literal("</"@, input) {
        lemma_identifier_rest(after_open);
        lemma_rest_of_rest(rest_of(spec_identifier(after_open)), after_open, input);
        if let Ok((after_name, _)) = spec_identifier(after_open) {
            lemma_match_literal_rest(">"@, after_name);
            lemma_rest_of_rest(rest_of(spec_match_literal(">"@, after_name)), after_name, input);
        }
    }
}

/// One element between whitespace: an element that closes itself or, where
/// there is none, an element with children.
pub open spec fn spec_element(input: Seq<char>) -> SpecResult<ElementView>
    decreases input.len(), 2int,
{
    let start = trim_start(input);
    let inner = match spec_single_element(start) {
        Ok(done) => Ok(done),
        Err(_) => {
            proof {
                lemma_trim_start_rest(input);
            }
            spec_parent_element(start)
        },
    };
    match inner {
        Ok((rest, element)) => Ok((trim_start(rest), element)),
        Err(rest) => Err(rest),
    }
}

/// An opening tag and, after it, the body of the element that it opened.
pub open spec fn spec_parent_element(input: Seq<char>) -> SpecResult<ElementView>
    decreases input.len(), 1int,
{
    match spec_open_element(input) {
        Ok((body, opened)) => {
            proof {
                lemma_element_tag_rest(">"@, input);
            }
            spec_element_body(opened, body)
        },
        Err(rest) => Err(rest),
    }
}

/// What follows the opening tag of `opened`: elements as far as they go, and
/// the closing tag of the same name; the value is `opened` with those elements
/// as its children.
pub open spec fn spec_element_body(opened: ElementView, input: Seq<char>) -> SpecResult<
    ElementView,
>
    decreases input.len(), 4int,
{
    let (after, children) = spec_children(input);
    match spec_close_element(opened.name, after) {
        Ok((rest, _)) => Ok(
            (rest, ElementView { name: opened.name, attributes: opened.attributes, children }),
        ),
        Err(rest) => Err(rest),
    }
}

/// The elements at the front of `input`, as far as they go, and the input
/// that is then left.
pub open spec fn spec_children(input: Seq<char>) -> (Seq<char>, Seq<ElementView>)
    decreases input.len(), 3int,
{
    match spec_element(input) {
        Ok((rest, element)) => if rest.len() < input.len() {
            let (end, more) = spec_children(rest);
            (end, seq![element] + more)
        } else {
            (input, Seq::empty())
        },
        Err(_) => (input, Seq::empty()),
    }
}

/// An element leaves a rest of the input, and a shorter one where it
/// succeeds.
pub proof fn lemma_element_rest(input: Seq<char>)
    ensures
        is_rest_of(rest_of(spec_element(input)), input),
        takes_some(spec_element(input), input),
    decreases input.len(), 2int,
{
    let start = trim_start(input);
    lemma_trim_start_rest(input);
    lemma_element_tag_rest("/>"@, start);
    let inner = match spec_single_element(start) {
        Ok(done) => Ok(done),
        Err(_) => {
            lemma_parent_element_rest(start);
            spec_parent_element(start)
        },
    };
    lemma_rest_of_rest(rest_of(inner), start, input);
    if let Ok((rest, _)) = inner {
        lemma_trim_start_rest(rest);
        lemma_rest_of_rest(trim_start(rest), rest, input);
    }
}

/// An element with children leaves a rest of the input, and a shorter one
/// where it succeeds.
pub proof fn lemma_parent_element_rest(input: Seq<char>)
    ensures
        is_rest_of(rest_of(spec_parent_element(input)), input),
        takes_some(spec_parent_element(input), input),
    decreases input.len(), 1int,
{
    lemma_element_tag_rest(">"@, input);
    if let Ok((body, opened)) = spec_open_element(input) {
        lemma_element_body_rest(opened, body);
        lemma_rest_of_rest(rest_of(spec_element_body(opened, body)), body, input);
    }
}

/// The body of an element leaves a rest of the input.
pub proof fn lemma_element_body_rest(opened: ElementView, input: Seq<char>)
    ensures
        is_rest_of(rest_of(spec_element_body(opened, input)), input),
    decreases input.len(), 4int,
{
    lemma_children_rest(input);
    let after = spec_children(input).0;
    lemma_close_element_rest(opened.name, after);
    lemma_rest_of_rest(rest_of(spec_close_element(opened.name, after)), after, input);
}

/// Elements as far as they go leave a rest of the input.
pub proof fn lemma_children_rest(input: Seq<char>)
    ensures
        is_rest_of(spec_children(input).0, input),
    decreases input.len(), 3int,
{
    lemma_skip_is_rest(input, 0);
    lemma_element_rest(input);
    if let Ok((rest, _)) = spec_element(input) {
        lemma_children_rest(rest);
        lemma_rest_of_rest(spec_children(rest).0, rest, input);
    }
}

} // verus!
