//! What whitespace changes in what the grammar returns: before a document
//! nothing, after a document nothing but the input that is left, and before an
//! attribute nothing, however much of it there is.

use crate::combinators::spec_repeat;
use crate::element::ElementView;
use crate::grammar::{
    lemma_children_rest, lemma_element_rest, lemma_element_tag_rest, lemma_spaced_attribute_rest,
    spaced_attribute, spec_attribute_pair, spec_attributes, spec_children, spec_close_element,
    spec_element, spec_element_start, spec_element_tag, spec_open_element, spec_parent_element,
    spec_quoted_string, spec_single_element, spec_spaced_attribute,
};
use crate::parser::{identifier_len, spec_identifier, spec_match_literal, SpecResult};
use crate::text::{
    all_but, identifier_class, is_whitespace, leading, lemma_leading, lemma_leading_unique,
    whitespace_class,
};
use crate::whitespace::{lemma_trim_start_rest, trim_start};
use vstd::prelude::*;

verus! {

/// Every character of `text` is whitespace.
pub open spec fn all_whitespace(text: Seq<char>) -> bool {
    forall|i: int| 0 <= i < text.len() ==> is_whitespace(#[trigger] text[i])
}

/// Whitespace before a text is taken off with the whitespace that the text
/// starts with.
pub proof fn lemma_trim_start_skips(space: Seq<char>, input: Seq<char>)
    requires
        all_whitespace(space),
    ensures
        trim_start(space + input) == trim_start(input),
{
    let n = leading(input, whitespace_class()) as int;
    lemma_leading(input, whitespace_class());
    let whole = space + input;
    assert forall|i: int| 0 <= i < space.len() + n implies whitespace_class()(
        #[trigger] whole[i],
    ) by {
        if i >= space.len() {
            assert(whole[i] == input[i - space.len()]);
        }
    }
    if space.len() + n < whole.len() {
        assert(whole[space.len() + n] == input[n]);
    }
    lemma_leading_unique(whole, whitespace_class(), space.len() + n);
    assert(whole.skip(space.len() + n) =~= input.skip(n));
}

/// A text with its leading whitespace taken off starts with no whitespace.
pub proof fn lemma_trim_start_twice(input: Seq<char>)
    ensures
        trim_start(trim_start(input)) == trim_start(input),
{
    let n = leading(input, whitespace_class()) as int;
    lemma_leading(input, whitespace_class());
    let trimmed = input.skip(n);
    if trimmed.len() > 0 {
        assert(trimmed[0] == input[n]);
    }
    lemma_leading_unique(trimmed, whitespace_class(), 0);
    assert(trimmed.skip(0) =~= trimmed);
}

/// Leading whitespace can be taken off the first of two texts before they are
/// joined.
pub proof fn lemma_trim_start_join(first: Seq<char>, second: Seq<char>)
    ensures
        trim_start(first + second) == trim_start(trim_start(first) + second),
{
    let n = leading(first, whitespace_class()) as int;
    lemma_leading(first, whitespace_class());
    assert(first + second =~= first.take(n) + (first.skip(n) + second));
    lemma_trim_start_skips(first.take(n), first.skip(n) + second);
}

/// The leading whitespace of an input that does not consist of whitespace is
/// the same whatever whitespace follows the input; of an input that consists
/// of whitespace, all is leading whitespace.
pub proof fn lemma_trim_start_kept(input: Seq<char>, space: Seq<char>)
    requires
        all_whitespace(space),
    ensures
        leading(input, whitespace_class()) < input.len() ==> leading(
            input + space,
            whitespace_class(),
        ) == leading(input, whitespace_class()) && trim_start(input + space) == trim_start(input)
            + space,
        leading(input, whitespace_class()) == input.len() ==> leading(
            input + space,
            whitespace_class(),
        ) == input.len() + space.len() && trim_start(input + space) == Seq::<char>::empty()
            && trim_start(input) == Seq::<char>::empty(),
{
    let n = leading(input, whitespace_class()) as int;
    let longer = input + space;
    lemma_leading(input, whitespace_class());
    if n < input.len() {
        assert forall|i: int| 0 <= i < n implies whitespace_class()(#[trigger] longer[i]) by {
            assert(longer[i] == input[i]);
        }
        assert(longer[n] == input[n]);
        lemma_leading_unique(longer, whitespace_class(), n);
        assert(longer.skip(n) =~= input.skip(n) + space);
    } else {
        assert forall|i: int| 0 <= i < longer.len() implies whitespace_class()(
            #[trigger] longer[i],
        ) by {
            if i < n {
                assert(longer[i] == input[i]);
            } else {
                assert(longer[i] == space[i - n]);
            }
        }
        lemma_leading_unique(longer, whitespace_class(), longer.len() as int);
        assert(longer.skip(longer.len() as int) =~= Seq::<char>::empty());
        assert(input.skip(n) =~= Seq::<char>::empty());
    }
}

/// Whitespace before a document changes nothing in what `element` returns:
/// not the element, not the input that is left, not the failure.
pub proof fn lemma_leading_whitespace(space: Seq<char>, input: Seq<char>)
    requires
        all_whitespace(space),
    ensures
        spec_element(space + input) == spec_element(input),
{
    lemma_trim_start_skips(space, input);
}

/// The whitespace after an element is taken with it: what `element` leaves
/// starts with no whitespace.
pub proof fn lemma_rest_is_trimmed(input: Seq<char>)
    ensures
        spec_element(input) matches Ok((rest, _)) ==> trim_start(rest) == rest,
{
    let start = trim_start(input);
    let inner = match spec_single_element(start) {
        Ok(done) => Ok(done),
        Err(_) => spec_parent_element(start),
    };
    if let Ok((rest, _)) = inner {
        lemma_trim_start_twice(rest);
    }
}

/// Which whitespace stands before an attribute, and how much of it, changes
/// nothing in what is parsed: not the attribute, not the input that is left,
/// not the failure.
pub proof fn lemma_whitespace_before_attribute(
    space1: Seq<char>,
    space2: Seq<char>,
    input: Seq<char>,
)
    requires
        all_whitespace(space1),
        all_whitespace(space2),
        space1.len() > 0,
        space2.len() > 0,
        input.len() == 0 || !is_whitespace(input[0]),
    ensures
        spec_spaced_attribute(space1 + input) == spec_attribute_pair(input),
        spec_spaced_attribute(space1 + input) == spec_spaced_attribute(space2 + input),
        spec_repeat(spaced_attribute(), space1 + input).1 == spec_repeat(
            spaced_attribute(),
            space2 + input,
        ).1,
{
    lemma_leading_unique(input, whitespace_class(), 0);
    assert(input.skip(0) =~= input);
    lemma_trim_start_skips(space1, input);
    lemma_trim_start_skips(space2, input);
    lemma_leading(space1 + input, whitespace_class());
    lemma_leading(space2 + input, whitespace_class());
    assert(leading(space1 + input, whitespace_class()) > 0) by {
        assert(is_whitespace((space1 + input)[0]));
    }
    assert(leading(space2 + input, whitespace_class()) > 0) by {
        assert(is_whitespace((space2 + input)[0]));
    }
    assert(spaced_attribute()(space1 + input) == spaced_attribute()(space2 + input));
    lemma_spaced_attribute_rest(space1 + input);
    lemma_spaced_attribute_rest(space2 + input);
}

/// `after`, a result on an input with `space` added at its end, is what
/// `before`, the result on the input itself, is: the same value with `space`
/// added to what is left, or a failure in place of a failure.
pub open spec fn kept<V>(before: SpecResult<V>, after: SpecResult<V>, space: Seq<char>) -> bool {
    match before {
        Ok((rest, value)) => after == Ok::<_, Seq<char>>((rest + space, value)),
        Err(_) => after is Err,
    }
}

/// `text` is not empty and holds no whitespace.
pub open spec fn solid(text: Seq<char>) -> bool {
    text.len() > 0 && forall|i: int| 0 <= i < text.len() ==> !is_whitespace(#[trigger] text[i])
}

/// A literal without whitespace is matched or not whatever whitespace follows
/// the input.
pub proof fn lemma_literal_kept(expected: Seq<char>, input: Seq<char>, space: Seq<char>)
    requires
        solid(expected),
        all_whitespace(space),
    ensures
        kept(
            spec_match_literal(expected, input),
            spec_match_literal(expected, input + space),
            space,
        ),
{
    let longer = input + space;
    let n = expected.len() as int;
    if expected.is_prefix_of(input) {
        assert(longer.subrange(0, n) =~= input.subrange(0, n));
        assert(longer.skip(n) =~= input.skip(n) + space);
    } else if expected.is_prefix_of(longer) {
        if input.len() >= n {
            assert(longer.subrange(0, n) =~= input.subrange(0, n));
        } else {
            let i = input.len() as int;
            assert(expected[i] == longer.subrange(0, n)[i]);
            assert(longer[i] == space[0]);
        }
    }
}

/// The characters of a class without whitespace that an input starts with are
/// the same whatever whitespace follows the input.
pub proof fn lemma_leading_kept(input: Seq<char>, class: spec_fn(char) -> bool, space: Seq<char>)
    requires
        forall|c: char| is_whitespace(c) ==> !#[trigger] class(c),
        all_whitespace(space),
    ensures
        leading(input + space, class) == leading(input, class),
{
    let n = leading(input, class) as int;
    let longer = input + space;
    lemma_leading(input, class);
    assert forall|i: int| 0 <= i < n implies class(#[trigger] longer[i]) by {
        assert(longer[i] == input[i]);
    }
    if n < longer.len() {
        if n < input.len() {
            assert(longer[n] == input[n]);
        } else {
            assert(longer[n] == space[0]);
            assert(is_whitespace(space[0]));
        }
    }
    lemma_leading_unique(longer, class, n);
}

/// An identifier is the same whatever whitespace follows the input.
pub proof fn lemma_identifier_kept(input: Seq<char>, space: Seq<char>)
    requires
        all_whitespace(space),
    ensures
        kept(spec_identifier(input), spec_identifier(input + space), space),
{
    let longer = input + space;
    if input.len() == 0 {
        if space.len() > 0 {
            assert(longer[0] == space[0]);
            assert(is_whitespace(space[0]));
        } else {
            assert(longer =~= input);
        }
    } else {
        assert(longer[0] == input[0]);
        assert(longer.drop_first() =~= input.drop_first() + space);
        lemma_leading_kept(input.drop_first(), identifier_class(), space);
        lemma_leading(input.drop_first(), identifier_class());
        let n = identifier_len(input) as int;
        assert(identifier_len(longer) == n);
        if n > 0 {
            assert(longer.skip(n) =~= input.skip(n) + space);
            assert(longer.take(n) =~= input.take(n));
        }
    }
}

/// A quoted string is the same whatever whitespace follows the input.
pub proof fn lemma_quoted_string_kept(input: Seq<char>, space: Seq<char>)
    requires
        all_whitespace(space),
    ensures
        kept(spec_quoted_string(input), spec_quoted_string(input + space), space),
{
    reveal_strlit("\"");
    let quote = "\""@;
    assert(solid(quote));
    lemma_literal_kept(quote, input, space);
    if let Ok((body, _)) = spec_match_literal(quote, input) {
        let longer = body + space;
        let n = leading(body, all_but('"')) as int;
        lemma_leading(body, all_but('"'));
        if n < body.len() {
            assert forall|i: int| 0 <= i < n implies all_but('"')(#[trigger] longer[i]) by {
                assert(longer[i] == body[i]);
            }
            assert(longer[n] == body[n]);
            lemma_leading_unique(longer, all_but('"'), n);
            assert(longer.skip(n) =~= body.skip(n) + space);
            assert(longer.take(n) =~= body.take(n));
            lemma_literal_kept(quote, body.skip(n), space);
        } else {
            assert forall|i: int| 0 <= i < longer.len() implies all_but('"')(
                #[trigger] longer[i],
            ) by {
                if i < n {
                    assert(longer[i] == body[i]);
                } else {
                    assert(longer[i] == space[i - n]);
                    assert(is_whitespace(space[i - n]));
                }
            }
            lemma_leading_unique(longer, all_but('"'), longer.len() as int);
            assert(longer.skip(longer.len() as int) =~= Seq::<char>::empty());
            assert(body.skip(n) =~= Seq::<char>::empty());
        }
    }
}

/// An attribute pair is the same whatever whitespace follows the input.
pub proof fn lemma_attribute_pair_kept(input: Seq<char>, space: Seq<char>)
    requires
        all_whitespace(space),
    ensures
        kept(spec_attribute_pair(input), spec_attribute_pair(input + space), space),
{
    reveal_strlit("=");
    assert(solid("="@));
    lemma_identifier_kept(input, space);
    if let Ok((after_name, _)) = spec_identifier(input) {
        lemma_literal_kept("="@, after_name, space);
        if let Ok((after_equals, _)) = spec_match_literal("="@, after_name) {
            lemma_quoted_string_kept(after_equals, space);
        }
    }
}

/// An attribute pair after whitespace is the same whatever whitespace follows
/// the input.
pub proof fn lemma_spaced_attribute_kept(input: Seq<char>, space: Seq<char>)
    requires
        all_whitespace(space),
    ensures
        kept(spec_spaced_attribute(input), spec_spaced_attribute(input + space), space),
{
    let n = leading(input, whitespace_class()) as int;
    let longer = input + space;
    lemma_leading(input, whitespace_class());
    lemma_trim_start_kept(input, space);
    let nothing = Seq::<char>::empty();
    assert(spec_attribute_pair(nothing) is Err);
    if n == 0 {
        if input.len() == 0 {
            assert(longer =~= space);
            lemma_trim_start_kept(nothing, space);
            assert(nothing + space =~= space);
        }
    } else if n < input.len() {
        lemma_attribute_pair_kept(trim_start(input), space);
    }
}

/// Attributes are the same whatever whitespace follows the input.
pub proof fn lemma_attributes_kept(input: Seq<char>, space: Seq<char>)
    requires
        all_whitespace(space),
    ensures
        kept(spec_attributes(input), spec_attributes(input + space), space),
    decreases input.len(),
{
    lemma_spaced_attribute_kept(input, space);
    lemma_spaced_attribute_rest(input);
    if let Ok((rest, attribute)) = spec_spaced_attribute(input) {
        lemma_attributes_kept(rest, space);
        assert(spaced_attribute()(input + space) == Ok::<_, Seq<char>>(
            (rest + space, attribute),
        ));
    } else {
        assert(spaced_attribute()(input + space) is Err);
    }
}

/// An element start is the same whatever whitespace follows the input.
pub proof fn lemma_element_start_kept(input: Seq<char>, space: Seq<char>)
    requires
        all_whitespace(space),
    ensures
        kept(spec_element_start(input), spec_element_start(input + space), space),
{
    reveal_strlit("<");
    assert(solid("<"@));
    lemma_literal_kept("<"@, input, space);
    if let Ok((after_open, _)) = spec_match_literal("<"@, input) {
        lemma_identifier_kept(after_open, space);
        if let Ok((after_name, _)) = spec_identifier(after_open) {
            lemma_attributes_kept(after_name, space);
        }
    }
}

/// A tag is the same whatever whitespace follows the input.
pub proof fn lemma_element_tag_kept(closing: Seq<char>, input: Seq<char>, space: Seq<char>)
    requires
        solid(closing),
        all_whitespace(space),
    ensures
        kept(spec_element_tag(closing, input), spec_element_tag(closing, input + space), space),
{
    lemma_element_start_kept(input, space);
    if let Ok((after_start, _)) = spec_element_start(input) {
        lemma_literal_kept(closing, after_start, space);
    }
}

/// A closing tag is the same whatever whitespace follows the input.
pub proof fn lemma_close_element_kept(name: Seq<char>, input: Seq<char>, space: Seq<char>)
    requires
        all_whitespace(space),
    ensures
        kept(spec_close_element(name, input), spec_close_element(name, input + space), space),
{
    reveal_strlit("</");
    reveal_strlit(">");
    assert(solid("</"@));
    assert(solid(">"@));
    lemma_literal_kept("</"@, input, space);
    if let Ok((after_open, _)) = spec_match_literal("</"@, input) {
        lemma_identifier_kept(after_open, space);
        if let Ok((after_name, _)) = spec_identifier(after_open) {
            lemma_literal_kept(">"@, after_name, space);
        }
    }
}

/// `after`, a result of `element` on an input with `space` added at its end,
/// is what `before`, the result on the input itself, is: the same element,
/// with `space` added to what is left where anything is left, or a failure in
/// place of a failure.
pub open spec fn element_kept(
    before: SpecResult<ElementView>,
    after: SpecResult<ElementView>,
    space: Seq<char>,
) -> bool {
    match before {
        Ok((rest, element)) => after == Ok::<_, Seq<char>>((trim_start(rest + space), element)),
        Err(_) => after is Err,
    }
}

/// Whitespace added at the end of the input changes nothing in the element
/// that `element` yields, and makes no element of an input that failed. What
/// is left of the input is what was left before and the whitespace added,
/// without its leading whitespace.
pub proof fn lemma_element_kept(input: Seq<char>, space: Seq<char>)
    requires
        all_whitespace(space),
    ensures
        element_kept(spec_element(input), spec_element(input + space), space),
    decreases input.len(), 2int,
{
    reveal_strlit("/>");
    reveal_strlit("<");
    assert(solid("/>"@));
    let start = trim_start(input);
    let nothing = Seq::<char>::empty();
    lemma_trim_start_kept(input, space);
    lemma_trim_start_rest(input);
    lemma_leading(input, whitespace_class());
    if leading(input, whitespace_class()) == input.len() {
        assert(!"<"@.is_prefix_of(nothing));
        assert(spec_element_start(nothing) is Err);
    } else {
        lemma_element_tag_kept("/>"@, start, space);
        match spec_single_element(start) {
            Ok((rest, _)) => {
                lemma_trim_start_join(rest, space);
            },
            Err(_) => {
                lemma_parent_element_kept(start, space);
                if let Ok((rest, _)) = spec_parent_element(start) {
                    lemma_trim_start_join(rest, space);
                }
            },
        }
    }
}

/// An element with children is the same whatever whitespace follows the
/// input.
pub proof fn lemma_parent_element_kept(input: Seq<char>, space: Seq<char>)
    requires
        all_whitespace(space),
    ensures
        kept(spec_parent_element(input), spec_parent_element(input + space), space),
    decreases input.len(), 1int,
{
    reveal_strlit(">");
    assert(solid(">"@));
    lemma_element_tag_kept(">"@, input, space);
    lemma_element_tag_rest(">"@, input);
    if let Ok((body, opened)) = spec_open_element(input) {
        lemma_children_kept(body, space);
        let after = spec_children(body).0;
        let after_longer = spec_children(body + space).0;
        if after_longer == after + space {
            lemma_close_element_kept(opened.name, after, space);
        }
    }
}

/// The children parsed are the same whatever whitespace follows the input.
/// Where nothing was left after them, nothing is left then either.
pub proof fn lemma_children_kept(input: Seq<char>, space: Seq<char>)
    requires
        all_whitespace(space),
    ensures
        spec_children(input + space).1 == spec_children(input).1,
        spec_children(input + space).0 == spec_children(input).0 + space || (spec_children(
            input,
        ).0.len() == 0 && spec_children(input + space).0.len() == 0),
    decreases input.len(), 3int,
{
    lemma_element_kept(input, space);
    lemma_element_rest(input);
    lemma_rest_is_trimmed(input);
    if let Ok((rest, element)) = spec_element(input) {
        let rest_longer = trim_start(rest + space);
        lemma_trim_start_rest(rest + space);
        lemma_trim_start_kept(rest, space);
        lemma_leading(rest, whitespace_class());
        if rest.len() > 0 {
            assert(leading(rest, whitespace_class()) == 0) by {
                if leading(rest, whitespace_class()) > 0 {
                    assert(trim_start(rest).len() < rest.len());
                }
            }
            assert(rest.skip(0) =~= rest);
            assert(rest_longer == rest + space);
            lemma_children_kept(rest, space);
        } else {
            assert(rest_longer =~= rest);
            lemma_children_rest(rest);
        }
    }
}

/// Whitespace added after a document that is parsed to its end changes
/// nothing: it is parsed to its end, to the same element.
pub proof fn lemma_trailing_whitespace_ignored(
    input: Seq<char>,
    space: Seq<char>,
    element: ElementView,
)
    requires
        all_whitespace(space),
        spec_element(input) == Ok::<_, Seq<char>>((Seq::<char>::empty(), element)),
    ensures
        spec_element(input + space) == Ok::<_, Seq<char>>((Seq::<char>::empty(), element)),
{
    lemma_element_kept(input, space);
    let nothing = Seq::<char>::empty();
    lemma_trim_start_kept(nothing, space);
    assert(nothing + space =~= space);
    lemma_leading_unique(nothing, whitespace_class(), 0);
}

} // verus!
