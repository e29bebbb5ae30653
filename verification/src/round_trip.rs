//! Documents written out from element trees parse back to those trees.

use crate::element::{
    valid_attribute, valid_attributes, valid_element, valid_name, valid_value, ElementView,
};
use crate::grammar::{
    spaced_attribute, spec_attributes, spec_children, spec_close_element, spec_element,
    spec_element_start, spec_open_element, spec_parent_element, spec_quoted_string,
    spec_single_element, spec_spaced_attribute,
};
use crate::parser::{identifier_len, spec_identifier, spec_match_literal};
use crate::render::{render_attribute, render_attributes, render_children, render_element};
use crate::spacing::{all_whitespace, lemma_leading_whitespace, lemma_trim_start_skips};
use crate::text::{
    all_but, identifier_class, is_identifier_char, is_whitespace, leading, lemma_leading_unique,
    whitespace_class,
};
use crate::whitespace::{spec_space1, trim_start};
use vstd::prelude::*;

verus! {

/// A literal is taken off the text that starts with it.
pub proof fn lemma_literal_parses(expected: Seq<char>, rest: Seq<char>)
    ensures
        spec_match_literal(expected, expected + rest) == Ok::<_, Seq<char>>((rest, ())),
{
    assert((expected + rest).subrange(0, expected.len() as int) =~= expected);
    assert((expected + rest).skip(expected.len() as int) =~= rest);
}

/// A name is taken off the text that starts with it, where the name does not
/// go on in what follows.
pub proof fn lemma_identifier_parses(name: Seq<char>, rest: Seq<char>)
    requires
        valid_name(name),
        rest.len() == 0 || !is_identifier_char(rest[0]),
    ensures
        spec_identifier(name + rest) == Ok::<_, Seq<char>>((rest, name)),
{
    let input = name + rest;
    let tail = input.drop_first();
    assert forall|i: int| 0 <= i < name.len() - 1 implies identifier_class()(
        #[trigger] tail[i],
    ) by {
        assert(tail[i] == name[i + 1]);
    }
    if name.len() - 1 < tail.len() {
        assert(tail[name.len() - 1] == rest[0]);
    }
    lemma_leading_unique(tail, identifier_class(), name.len() - 1);
    assert(identifier_len(input) == name.len());
    assert(input.skip(name.len() as int) =~= rest);
    assert(input.take(name.len() as int) =~= name);
}

/// A value between two `"` is taken off the text that starts with it.
pub proof fn lemma_quoted_string_parses(value: Seq<char>, rest: Seq<char>)
    requires
        valid_value(value),
    ensures
        spec_quoted_string(seq!['"'] + value + seq!['"'] + rest) == Ok::<_, Seq<char>>(
            (rest, value),
        ),
{
    reveal_strlit("\"");
    let quote = "\""@;
    assert(quote =~= seq!['"']);
    let body = value + seq!['"'] + rest;
    let input = seq!['"'] + value + seq!['"'] + rest;
    assert(input =~= quote + body);
    lemma_literal_parses(quote, body);
    assert forall|i: int| 0 <= i < value.len() implies all_but('"')(#[trigger] body[i]) by {
        assert(body[i] == value[i]);
    }
    assert(body[value.len() as int] == '"');
    lemma_leading_unique(body, all_but('"'), value.len() as int);
    assert(body.skip(value.len() as int) =~= quote + rest);
    assert(body.take(value.len() as int) =~= value);
    lemma_literal_parses(quote, rest);
}

/// An attribute written out is parsed back, whatever follows it.
pub proof fn lemma_attribute_parses(attribute: (Seq<char>, Seq<char>), rest: Seq<char>)
    requires
        valid_attribute(attribute),
    ensures
        spec_spaced_attribute(render_attribute(attribute) + rest) == Ok::<_, Seq<char>>(
            (rest, attribute),
        ),
{
    reveal_strlit("=");
    let (name, value) = attribute;
    let input = render_attribute(attribute) + rest;
    let quoted = seq!['"'] + value + seq!['"'] + rest;
    let after_name = "="@ + quoted;
    let after_space = name + after_name;
    assert("="@ =~= seq!['=']);
    assert(input =~= seq![' '] + after_space);
    assert(is_whitespace(input[0]));
    assert(input[1] == name[0]);
    lemma_leading_unique(input, whitespace_class(), 1);
    assert(input.skip(1) =~= after_space);
    assert(spec_space1(input) == Ok::<_, Seq<char>>((after_space, input.take(1))));
    assert(after_name[0] == '=');
    lemma_identifier_parses(name, after_name);
    lemma_literal_parses("="@, quoted);
    lemma_quoted_string_parses(value, rest);
}

/// Attributes written out are parsed back, where no whitespace follows them.
pub proof fn lemma_attributes_parse(attributes: Seq<(Seq<char>, Seq<char>)>, rest: Seq<char>)
    requires
        valid_attributes(attributes),
        rest.len() == 0 || !is_whitespace(rest[0]),
    ensures
        spec_attributes(render_attributes(attributes) + rest) == Ok::<_, Seq<char>>(
            (rest, attributes),
        ),
    decreases attributes.len(),
{
    let input = render_attributes(attributes) + rest;
    if attributes.len() == 0 {
        assert(input =~= rest);
        lemma_leading_unique(rest, whitespace_class(), 0);
        assert(spec_spaced_attribute(rest) is Err);
        assert(spaced_attribute()(rest) is Err);
        assert(attributes =~= Seq::empty());
    } else {
        let first = attributes[0];
        let others = attributes.drop_first();
        let tail = render_attributes(others) + rest;
        assert(input =~= render_attribute(first) + tail);
        lemma_attribute_parses(first, tail);
        lemma_attributes_parse(others, rest);
        assert(spaced_attribute()(input) == Ok::<_, Seq<char>>((tail, first)));
        assert(tail.len() < input.len());
        assert(seq![first] + others =~= attributes);
    }
}

/// The first character of attributes written out, where there is one, is a
/// space.
pub proof fn lemma_attributes_begin(attributes: Seq<(Seq<char>, Seq<char>)>)
    ensures
        attributes.len() == 0 ==> render_attributes(attributes) =~= Seq::empty(),
        attributes.len() > 0 ==> render_attributes(attributes).len() > 0 && render_attributes(
            attributes,
        )[0] == ' ',
{
    if attributes.len() > 0 {
        let first = render_attribute(attributes[0]);
        assert(first[0] == ' ');
        assert(render_attributes(attributes)[0] == first[0]);
    }
}

/// `<`, a name and attributes written out are parsed back, where `/` or `>`
/// follows them.
pub proof fn lemma_element_start_parses(
    name: Seq<char>,
    attributes: Seq<(Seq<char>, Seq<char>)>,
    rest: Seq<char>,
)
    requires
        valid_name(name),
        valid_attributes(attributes),
        rest.len() > 0,
        rest[0] == '/' || rest[0] == '>',
    ensures
        spec_element_start(seq!['<'] + name + render_attributes(attributes) + rest) == Ok::<
            _,
            Seq<char>,
        >((rest, (name, attributes))),
{
    reveal_strlit("<");
    assert("<"@ =~= seq!['<']);
    let input = seq!['<'] + name + render_attributes(attributes) + rest;
    let after_name = render_attributes(attributes) + rest;
    let after_open = name + after_name;
    assert(input =~= "<"@ + after_open);
    lemma_literal_parses("<"@, after_open);
    lemma_attributes_begin(attributes);
    assert(after_name.len() > 0);
    assert(after_name[0] == ' ' || after_name[0] == rest[0]);
    lemma_identifier_parses(name, after_name);
    lemma_attributes_parse(attributes, rest);
}

/// The text of an element starts with `<` and is not empty.
pub proof fn lemma_element_begins(element: ElementView)
    ensures
        render_element(element).len() > 0,
        render_element(element)[0] == '<',
{
    let start = seq!['<'] + element.name + render_attributes(element.attributes);
    assert(start[0] == '<');
    if element.children.len() == 0 {
        assert(render_element(element)[0] == start[0]);
    } else {
        assert(render_element(element)[0] == start[0]);
    }
}

/// No whitespace is taken off a text that starts with `<`.
pub proof fn lemma_trim_start_at_tag(input: Seq<char>)
    requires
        input.len() > 0,
        input[0] == '<',
    ensures
        trim_start(input) == input,
{
    lemma_leading_unique(input, whitespace_class(), 0);
    assert(input.skip(0) =~= input);
}

/// A closing tag is no element.
pub proof fn lemma_closing_tag_is_no_element(input: Seq<char>)
    requires
        input.len() >= 2,
        input[0] == '<',
        input[1] == '/',
    ensures
        spec_element(input) is Err,
{
    reveal_strlit("<");
    lemma_trim_start_at_tag(input);
    let after_open = input.skip(1);
    assert("<"@ =~= input.subrange(0, 1));
    assert(after_open[0] == '/');
    assert(identifier_len(after_open) == 0);
    assert(spec_element_start(input) is Err);
}

/// The closing tag of a name is parsed as that, whatever follows it.
pub proof fn lemma_close_element_parses(name: Seq<char>, rest: Seq<char>)
    requires
        valid_name(name),
    ensures
        spec_close_element(name, seq!['<', '/'] + name + seq!['>'] + rest) == Ok::<_, Seq<char>>(
            (rest, name),
        ),
{
    reveal_strlit("</");
    reveal_strlit(">");
    assert("</"@ =~= seq!['<', '/']);
    assert(">"@ =~= seq!['>']);
    let input = seq!['<', '/'] + name + seq!['>'] + rest;
    let after_name = ">"@ + rest;
    let after_open = name + after_name;
    assert(input =~= "</"@ + after_open);
    lemma_literal_parses("</"@, after_open);
    assert(after_name[0] == '>');
    lemma_identifier_parses(name, after_name);
    lemma_literal_parses(">"@, rest);
}

/// An element written out is parsed back, whatever follows it; of what
/// follows, the leading whitespace is taken too.
pub proof fn lemma_element_parses(element: ElementView, rest: Seq<char>)
    requires
        valid_element(element),
    ensures
        spec_element(render_element(element) + rest) == Ok::<_, Seq<char>>(
            (trim_start(rest), element),
        ),
    decreases element, element.children.len() + 1,
{
    reveal_strlit("/>");
    reveal_strlit(">");
    assert("/>"@ =~= seq!['/', '>']);
    assert(">"@ =~= seq!['>']);
    let input = render_element(element) + rest;
    lemma_element_begins(element);
    assert(input[0] == '<');
    lemma_trim_start_at_tag(input);
    let head = seq!['<'] + element.name + render_attributes(element.attributes);
    if element.children.len() == 0 {
        let after_start = "/>"@ + rest;
        assert(input =~= head + after_start);
        assert(after_start[0] == '/');
        lemma_element_start_parses(element.name, element.attributes, after_start);
        lemma_literal_parses("/>"@, rest);
        let parsed = ElementView {
            name: element.name,
            attributes: element.attributes,
            children: Seq::empty(),
        };
        assert(parsed.children =~= element.children);
        assert(spec_single_element(input) == Ok::<_, Seq<char>>((rest, parsed)));
    } else {
        let tail = seq!['<', '/'] + element.name + seq!['>'] + rest;
        let body = render_children(element, 0) + tail;
        let after_start = ">"@ + body;
        assert(input =~= head + after_start);
        assert(after_start[0] == '>');
        lemma_element_start_parses(element.name, element.attributes, after_start);
        assert(!"/>"@.is_prefix_of(after_start)) by {
            if "/>"@.is_prefix_of(after_start) {
                assert("/>"@[0] == after_start.subrange(0, 2)[0]);
            }
        }
        assert(spec_single_element(input) is Err);
        lemma_literal_parses(">"@, body);
        let opened = ElementView {
            name: element.name,
            attributes: element.attributes,
            children: Seq::empty(),
        };
        assert(spec_open_element(input) == Ok::<_, Seq<char>>((body, opened)));
        assert(tail[0] == '<' && tail[1] == '/');
        lemma_children_parse(element, 0, tail);
        assert(element.children.skip(0) =~= element.children);
        lemma_close_element_parses(element.name, rest);
        assert(spec_parent_element(input) == Ok::<_, Seq<char>>((rest, element)));
    }
}

/// The children of an element written out are parsed back, where a closing
/// tag follows them.
pub proof fn lemma_children_parse(element: ElementView, from: int, tail: Seq<char>)
    requires
        valid_element(element),
        0 <= from <= element.children.len(),
        tail.len() >= 2,
        tail[0] == '<',
        tail[1] == '/',
    ensures
        spec_children(render_children(element, from) + tail) == (
            tail,
            element.children.skip(from),
        ),
    decreases element, element.children.len() - from,
{
    let input = render_children(element, from) + tail;
    if from < element.children.len() {
        let child = element.children[from];
        let others = render_children(element, from + 1) + tail;
        assert(input =~= render_element(child) + others);
        lemma_element_parses(child, others);
        lemma_element_begins(child);
        if from + 1 < element.children.len() {
            lemma_element_begins(element.children[from + 1]);
            assert(others[0] == render_element(element.children[from + 1])[0]);
        } else {
            assert(render_children(element, from + 1) =~= Seq::empty());
            assert(others =~= tail);
        }
        lemma_trim_start_at_tag(others);
        lemma_children_parse(element, from + 1, tail);
        assert(seq![child] + element.children.skip(from + 1) =~= element.children.skip(from));
    } else {
        assert(input =~= tail);
        lemma_closing_tag_is_no_element(tail);
        assert(element.children.skip(from) =~= Seq::empty());
    }
}

/// A document written out from an element tree parses back to that tree, with
/// no input left: names, attributes in their order, and children in their
/// order and at their depth are those of the tree.
pub proof fn lemma_round_trip(element: ElementView)
    requires
        valid_element(element),
    ensures
        spec_element(render_element(element)) == Ok::<_, Seq<char>>(
            (Seq::<char>::empty(), element),
        ),
{
    lemma_element_parses(element, Seq::empty());
    assert(render_element(element) + Seq::empty() =~= render_element(element));
    lemma_leading_unique(Seq::empty(), whitespace_class(), 0);
    assert(trim_start(Seq::empty()) =~= Seq::empty());
}

/// `<name a="v" ... />`, written with one space before each attribute, parses
/// to the element of that name with those attributes and no children, with no
/// input left.
pub proof fn lemma_single_element_round_trip(
    name: Seq<char>,
    attributes: Seq<(Seq<char>, Seq<char>)>,
)
    requires
        valid_name(name),
        valid_attributes(attributes),
    ensures
        spec_element(seq!['<'] + name + render_attributes(attributes) + seq!['/', '>']) == Ok::<
            _,
            Seq<char>,
        >((Seq::<char>::empty(), ElementView { name, attributes, children: Seq::empty() })),
{
    lemma_round_trip(ElementView { name, attributes, children: Seq::empty() });
}

/// A document written out from an element tree, with whitespace before and
/// after it, parses to that tree with no input left.
pub proof fn lemma_round_trip_in_whitespace(
    before: Seq<char>,
    element: ElementView,
    after: Seq<char>,
)
    requires
        valid_element(element),
        all_whitespace(before),
        all_whitespace(after),
    ensures
        spec_element(before + render_element(element) + after) == Ok::<_, Seq<char>>(
            (Seq::<char>::empty(), element),
        ),
{
    assert(before + render_element(element) + after =~= before + (render_element(element)
        + after));
    lemma_leading_whitespace(before, render_element(element) + after);
    lemma_element_parses(element, after);
    lemma_trim_start_skips(after, Seq::empty());
    assert(after + Seq::empty() =~= after);
    lemma_leading_unique(Seq::empty(), whitespace_class(), 0);
    assert(trim_start(Seq::empty()) =~= Seq::empty());
}

} // verus!
