//! The parsers of a small subset of XML: elements with quoted attributes and
//! nested children.

use crate::combinators::{
    and_then, either, left, lemma_class_consumes, lemma_deep_view_push, lemma_pair_consumes,
    lemma_repeat_agree, lemma_repeat_class, pair, pred, right, spec_repeat, zero_or_more, AndThen,
    Chain, Either, Left, Mapped, NotChar, Pair, Pred, Predicate, Right, Transform, ZeroOrMore,
};
use crate::element::{element_view, Element, ElementView};
use crate::grammar::{
    lemma_element_body_rest, lemma_element_rest, lemma_element_tag_rest, spaced_attribute,
    spec_attribute_pair, spec_attributes, spec_children, spec_close_element, spec_element,
    spec_element_body, spec_element_start, spec_open_element, spec_parent_element,
    spec_quoted_string, spec_single_element,
};
use crate::parser::{
    as_fn, consumes, match_literal, result_view, spec_match_literal, takes_some, AnyChar,
    Identifier, MatchLiteral, ParseResult, Parser, SpecResult,
};
use crate::text::all_but;
use crate::whitespace::{
    lemma_trim_start_rest, space0, space1, whitespace_wrap, Space1, WhitespaceWrap,
};
use vstd::prelude::*;

verus! {

/// Gathers characters into a string.
pub struct CollectChars;

impl Transform<Vec<char>> for CollectChars {
    type Output = String;

    open spec fn wf_transform(&self) -> bool {
        true
    }

    open spec fn spec_apply(&self, value: Seq<char>) -> Seq<char> {
        value
    }

    fn apply(&self, value: Vec<char>) -> (out: String) {
        let mut out = String::new();
        let mut i: usize = 0;
        while i < value.len()
            invariant
                i <= value.len(),
                out@ == value@.take(i as int),
            decreases value.len() - i,
        {
            out.push(value[i]);
            assert(value@.take(i + 1) =~= value@.take(i as int).push(value@[i as int]));
            i += 1;
        }
        assert(value.deep_view() =~= value@);
        assert(value@.take(value.len() as int) =~= value@);
        out
    }
}

/// Makes an element without children of a name and attributes.
pub struct MakeElement;

impl Transform<(String, Vec<(String, String)>)> for MakeElement {
    type Output = Element;

    open spec fn wf_transform(&self) -> bool {
        true
    }

    open spec fn spec_apply(&self, value: (Seq<char>, Seq<(Seq<char>, Seq<char>)>)) -> ElementView {
        ElementView { name: value.0, attributes: value.1, children: Seq::empty() }
    }

    fn apply(&self, value: (String, Vec<(String, String)>)) -> (out: Element) {
        let (name, attributes) = value;
        let out = Element { name, attributes, children: Vec::new() };
        assert(element_view(out).children =~= Seq::empty());
        out
    }
}

/// The strings equal to one given string.
pub struct NameIs(pub String);

impl Predicate<String> for NameIs {
    open spec fn wf_predicate(&self) -> bool {
        true
    }

    open spec fn holds(&self, value: Seq<char>) -> bool {
        value == self.0@
    }

    fn test(&self, value: &String) -> (b: bool) {
        *value == self.0
    }
}

/// The type of `quoted_string()`.
pub type QuotedString = Mapped<
    Right<
        MatchLiteral<'static>,
        Left<ZeroOrMore<Pred<AnyChar, NotChar>>, MatchLiteral<'static>>,
    >,
    CollectChars,
>;

/// The type of `attribute_pair()`.
pub type AttributePair = Pair<Identifier, Right<MatchLiteral<'static>, QuotedString>>;

/// The type of `attributes()`.
pub type Attributes = ZeroOrMore<Right<Space1, AttributePair>>;

/// The type of `element_start()`.
pub type ElementStart = Right<MatchLiteral<'static>, Pair<Identifier, Attributes>>;

/// The type of `single_element()` and of `open_element()`.
pub type ElementTag = Mapped<Left<ElementStart, MatchLiteral<'static>>, MakeElement>;

/// The type of `close_element(expected_name)`.
pub type CloseElement = Pred<
    Right<MatchLiteral<'static>, Left<Identifier, MatchLiteral<'static>>>,
    NameIs,
>;

/// The parser of a string between two `"`: any characters but `"` may stand
/// between them. The value is what stands between them.
pub fn quoted_string() -> (p: QuotedString)
    ensures
        p.wf(),
        forall|input: Seq<char>| #[trigger] p.spec_parse(input) == spec_quoted_string(input),
{
    let p = crate::combinators::map(
        right(
            match_literal("\""),
            left(zero_or_more(pred(AnyChar, NotChar('"'))), match_literal("\"")),
        ),
        CollectChars,
    );
    proof {
        lemma_class_consumes(NotChar('"'));
        assert forall|input: Seq<char>| #[trigger]
            p.spec_parse(input) == spec_quoted_string(input) by {
            if let Ok((body, _)) = spec_match_literal("\""@, input) {
                lemma_repeat_class(NotChar('"'), body, all_but('"'));
            }
        }
    }
    p
}

/// The parser of `name="value"`. The value is the pair of name and value.
pub fn attribute_pair() -> (p: AttributePair)
    ensures
        p.wf(),
        forall|input: Seq<char>| #[trigger] p.spec_parse(input) == spec_attribute_pair(input),
{
    pair(Identifier, right(match_literal("="), quoted_string()))
}

/// The parser of zero or more attribute pairs, each after one or more
/// whitespace characters. The value is the pairs in their order; none is
/// dropped for having the name of another.
pub fn attributes() -> (p: Attributes)
    ensures
        p.wf(),
        forall|input: Seq<char>| #[trigger] p.spec_parse(input) == spec_attributes(input),
{
    let item = right(space1(), attribute_pair());
    let p = zero_or_more(item);
    proof {
        lemma_pair_consumes(item.first, item.second);
        assert forall|input: Seq<char>| #[trigger]
            p.spec_parse(input) == spec_attributes(input) by {
            lemma_repeat_agree(as_fn(item), spaced_attribute(), input);
        }
    }
    p
}

/// The parser of `<`, a name and attributes. The value is the name and the
/// attributes.
pub fn element_start() -> (p: ElementStart)
    ensures
        p.wf(),
        forall|input: Seq<char>| #[trigger] p.spec_parse(input) == spec_element_start(input),
{
    right(match_literal("<"), pair(Identifier, attributes()))
}

/// The parser of an element that closes itself: an element start and `/>`.
/// The value is an element without children.
pub fn single_element() -> (p: ElementTag)
    ensures
        p.wf(),
        forall|input: Seq<char>| #[trigger] p.spec_parse(input) == spec_single_element(input),
{
    crate::combinators::map(left(element_start(), match_literal("/>")), MakeElement)
}

/// The parser of an opening tag: an element start and `>`. The value is an
/// element without children yet.
pub fn open_element() -> (p: ElementTag)
    ensures
        p.wf(),
        forall|input: Seq<char>| #[trigger] p.spec_parse(input) == spec_open_element(input),
{
    crate::combinators::map(left(element_start(), match_literal(">")), MakeElement)
}

/// The parser of the closing tag `</expected_name>`. A closing tag of another
/// name fails on the input as it was.
pub fn close_element(expected_name: String) -> (p: CloseElement)
    ensures
        p.wf(),
        forall|input: Seq<char>| #[trigger]
            p.spec_parse(input) == spec_close_element(expected_name@, input),
{
    pred(right(match_literal("</"), left(Identifier, match_literal(">"))), NameIs(expected_name))
}

/// Parses one element between whitespace.
pub fn parse_element<'a>(input: &'a str) -> (r: ParseResult<'a, Element>)
    ensures
        result_view(r) == spec_element(input@),
    decreases input@.len(), 2int,
{
    let start = match space0().parse(input) {
        Ok((start, _)) => start,
        Err(rest) => {
            return Err(rest);
        },
    };
    proof {
        lemma_trim_start_rest(input@);
    }
    let inner = match single_element().parse(start) {
        Ok(done) => Ok(done),
        Err(_) => parse_parent_element(start),
    };
    match inner {
        Ok((rest, element)) => match space0().parse(rest) {
            Ok((end, _)) => Ok((end, element)),
            Err(rest) => Err(rest),
        },
        Err(rest) => Err(rest),
    }
}

/// Parses an opening tag and the body of the element that it opened.
pub fn parse_parent_element<'a>(input: &'a str) -> (r: ParseResult<'a, Element>)
    ensures
        result_view(r) == spec_parent_element(input@),
    decreases input@.len(), 1int,
{
    match open_element().parse(input) {
        Ok((body, opened)) => {
            proof {
                lemma_element_tag_rest(">"@, input@);
            }
            parse_element_body(opened, body)
        },
        Err(rest) => Err(rest),
    }
}

/// Parses what follows the opening tag of `opened`: its children and its
/// closing tag.
pub fn parse_element_body<'a>(opened: Element, input: &'a str) -> (r: ParseResult<'a, Element>)
    ensures
        result_view(r) == spec_element_body(opened@, input@),
    decreases input@.len(), 4int,
{
    let mut children = Vec::new();
    let after = parse_children(input, &mut children);
    assert(children.deep_view() =~= spec_children(input@).1);
    match close_element(opened.name.clone()).parse(after) {
        Ok((rest, _)) => Ok((rest, WithChildren(opened).apply(children))),
        Err(rest) => Err(rest),
    }
}

/// Parses elements from `input` on until one fails, adding them to
/// `children`.
pub fn parse_children<'a>(input: &'a str, children: &mut Vec<Element>) -> (end: &'a str)
    ensures
        end@ == spec_children(input@).0,
        final(children).deep_view() == old(children).deep_view() + spec_children(input@).1,
    decreases input@.len(), 3int,
{
    let mut have = input;
    loop
        invariant
            have@.len() <= input@.len(),
            spec_children(input@).0 == spec_children(have@).0,
            old(children).deep_view() + spec_children(input@).1 == children.deep_view()
                + spec_children(have@).1,
        decreases have@.len(),
    {
        match parse_element(have) {
            Ok((rest, element)) => {
                let ghost before = *children;
                let ghost tail = spec_children(rest@).1;
                children.push(element);
                proof {
                    lemma_element_rest(have@);
                    lemma_deep_view_push(before, *children, element);
                    assert(children.deep_view() + tail =~= before.deep_view() + (seq![
                        element.deep_view(),
                    ] + tail));
                }
                have = rest;
            },
            Err(_) => {
                assert(children.deep_view() + Seq::empty() =~= children.deep_view());
                return have;
            },
        }
    }
}

/// The parser of elements as one value. An element may stand inside an
/// element, so `element` is at bottom a function that calls itself, on ever
/// shorter input: `parse_element`.
pub struct ElementParser;

impl Parser for ElementParser {
    type Output = Element;

    open spec fn wf(&self) -> bool {
        true
    }

    open spec fn spec_parse(&self, input: Seq<char>) -> SpecResult<ElementView> {
        spec_element(input)
    }

    proof fn lemma_rest(&self, input: Seq<char>) {
        lemma_element_rest(input);
    }

    fn parse<'a>(&self, input: &'a str) -> (r: ParseResult<'a, Element>) {
        parse_element(input)
    }
}

/// `element()` as one value that can stand inside itself.
pub fn element_parser() -> (p: ElementParser)
    ensures
        p.wf(),
        consumes(p),
        forall|input: Seq<char>| #[trigger] p.spec_parse(input) == spec_element(input),
{
    proof {
        assert forall|input: Seq<char>| takes_some(
            #[trigger] ElementParser.spec_parse(input),
            input,
        ) by {
            lemma_element_rest(input);
        }
    }
    ElementParser
}

/// The children of an element are `zero_or_more(element())`.
pub proof fn lemma_children_are_repeated_elements(input: Seq<char>)
    ensures
        spec_children(input) == spec_repeat(as_fn(ElementParser), input),
    decreases input.len(),
{
    if let Ok((rest, _)) = spec_element(input) {
        if rest.len() < input.len() {
            lemma_children_are_repeated_elements(rest);
        }
    }
}

/// Puts children into an element that was parsed without them.
pub struct WithChildren(pub Element);

impl Transform<Vec<Element>> for WithChildren {
    type Output = Element;

    open spec fn wf_transform(&self) -> bool {
        true
    }

    open spec fn spec_apply(&self, children: Seq<ElementView>) -> ElementView {
        ElementView { name: self.0@.name, attributes: self.0@.attributes, children }
    }

    fn apply(&self, children: Vec<Element>) -> (out: Element) {
        let opened = self.0.clone();
        let out = Element { name: opened.name, attributes: opened.attributes, children };
        assert(element_view(out).children =~= children.deep_view());
        out
    }
}

/// From an opened element to the parser of its body.
pub struct ChildrenThenClose;

/// The type of the parser that `ChildrenThenClose` returns.
pub type ElementBody = Mapped<Left<ZeroOrMore<ElementParser>, CloseElement>, WithChildren>;

/// The type of `parent_element()`.
pub type ParentElement = AndThen<ElementTag, ChildrenThenClose>;

/// The type of `element()`.
pub type WrappedElement = WhitespaceWrap<Either<ElementTag, ParentElement>>;

impl Chain<Element> for ChildrenThenClose {
    type Next = ElementBody;

    open spec fn wf_chain(&self) -> bool {
        true
    }

    open spec fn spec_next(&self, opened: ElementView, input: Seq<char>) -> SpecResult<
        ElementView,
    > {
        spec_element_body(opened, input)
    }

    proof fn lemma_next_rest(&self, opened: ElementView, input: Seq<char>) {
        lemma_element_body_rest(opened, input);
    }

    fn next(&self, opened: Element) -> (p: ElementBody) {
        let p = crate::combinators::map(
            left(zero_or_more(element_parser()), close_element(opened.name.clone())),
            WithChildren(opened),
        );
        proof {
            assert forall|input: Seq<char>| #[trigger]
                p.spec_parse(input) == spec_element_body(opened@, input) by {
                lemma_children_are_repeated_elements(input);
            }
        }
        p
    }
}

/// The parser of an element with an opening tag, zero or more elements and the
/// closing tag of the same name. The value is the element with those elements
/// as its children.
pub fn parent_element() -> (p: ParentElement)
    ensures
        p.wf(),
        forall|input: Seq<char>| #[trigger] p.spec_parse(input) == spec_parent_element(input),
{
    and_then(open_element(), ChildrenThenClose)
}

/// The parser of one element, with the whitespace before and after it: an
/// element that closes itself or an element with a closing tag. What is left
/// of the input after it is returned, not judged.
pub fn element() -> (p: WrappedElement)
    ensures
        p.wf(),
        forall|input: Seq<char>| #[trigger] p.spec_parse(input) == spec_element(input),
{
    whitespace_wrap(either(single_element(), parent_element()))
}

} // verus!
