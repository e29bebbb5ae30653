//! The parsing abstraction and the primitive parsers.

use crate::text::{
    ascii_alphabetic, identifier_class, is_ascii_alphabetic, leading, lemma_leading, split_first,
    strip_prefix, take_identifier_chars,
};
use vstd::prelude::*;

verus! {

/// What a parser returns: the unconsumed input and the parsed value, or the
/// input at the point where parsing could not go on.
pub type ParseResult<'a, T> = Result<(&'a str, T), &'a str>;

/// A `ParseResult` over mathematical values.
pub type SpecResult<V> = Result<(Seq<char>, V), Seq<char>>;

/// The mathematical value of a `ParseResult`.
pub open spec fn result_view<'a, T: DeepView>(r: ParseResult<'a, T>) -> SpecResult<T::V> {
    match r {
        Ok((rest, value)) => Ok((rest@, value.deep_view())),
        Err(rest) => Err(rest@),
    }
}

/// The input view that a result carries, on success and on failure.
pub open spec fn rest_of<V>(r: SpecResult<V>) -> Seq<char> {
    match r {
        Ok((rest, _)) => rest,
        Err(rest) => rest,
    }
}

/// `rest` is what is left of `input` after some characters were taken off
/// its front.
pub open spec fn is_rest_of(rest: Seq<char>, input: Seq<char>) -> bool {
    rest.len() <= input.len() && rest == input.skip(input.len() - rest.len())
}

/// Skipping characters leaves a rest of the input.
pub proof fn lemma_skip_is_rest(input: Seq<char>, n: int)
    requires
        0 <= n <= input.len(),
    ensures
        is_rest_of(input.skip(n), input),
        is_rest_of(input, input),
{
    assert(input.skip(0) =~= input);
}

/// A rest of a rest is a rest.
pub proof fn lemma_rest_of_rest(a: Seq<char>, b: Seq<char>, c: Seq<char>)
    requires
        is_rest_of(a, b),
        is_rest_of(b, c),
    ensures
        is_rest_of(a, c),
{
    assert(a =~= c.skip(c.len() - a.len()));
}

/// A parser: a function from the input to a parsed value and the remaining
/// input, or to the input at the point of failure.
pub trait Parser {
    type Output: DeepView;

    /// What must hold of a parser for `parse` to be called on it.
    spec fn wf(&self) -> bool;

    /// The parser as a mathematical function.
    spec fn spec_parse(&self, input: Seq<char>) -> SpecResult<<Self::Output as DeepView>::V>;

    /// On success and on failure, what is returned of the input is a suffix
    /// of it.
    proof fn lemma_rest(&self, input: Seq<char>)
        requires
            self.wf(),
        ensures
            is_rest_of(rest_of(self.spec_parse(input)), input),
    ;

    /// Parses `input`: what it returns is `spec_parse` of the input's text.
    fn parse<'a>(&self, input: &'a str) -> (r: ParseResult<'a, Self::Output>)
        requires
            self.wf(),
        ensures
            result_view(r) == self.spec_parse(input@),
    ;
}

/// What `parse` returns depends on the text of the input alone: two calls on
/// inputs with one text return results with one view, whatever was parsed in
/// between.
pub proof fn lemma_parse_depends_on_input_alone<P: Parser>(
    parser: P,
    first: &str,
    second: &str,
    r1: ParseResult<P::Output>,
    r2: ParseResult<P::Output>,
)
    requires
        first@ == second@,
        call_ensures(P::parse, (&parser, first), r1),
        call_ensures(P::parse, (&parser, second), r2),
    ensures
        result_view(r1) == result_view(r2),
{
}

/// Some call of `f` on an input with the view `input` may return a result with
/// the view `r`.
pub open spec fn may_return<T: DeepView, F: for <'a> Fn(&'a str) -> ParseResult<'a, T>>(
    f: F,
    input: Seq<char>,
    r: SpecResult<T::V>,
) -> bool {
    exists|i: &str, x: ParseResult<T>| #[trigger]
        call_ensures(f, (i,), x) && i@ == input && result_view(x) == r
}

/// A function from the input to a `ParseResult` is a parser where it can be
/// called on every input, gives one result for inputs with one view, and
/// returns a rest of its input.
impl<T: DeepView, F: for <'a> Fn(&'a str) -> ParseResult<'a, T>> Parser for F {
    type Output = T;

    open spec fn wf(&self) -> bool {
        &&& forall|input: &str| call_requires(*self, (input,))
        &&& forall|input: Seq<char>, r1: SpecResult<T::V>, r2: SpecResult<T::V>|
            may_return(*self, input, r1) && may_return(*self, input, r2) ==> r1 == r2
        &&& forall|input: Seq<char>, r: SpecResult<T::V>| #[trigger]
            may_return(*self, input, r) ==> is_rest_of(rest_of(r), input)
    }

    open spec fn spec_parse(&self, input: Seq<char>) -> SpecResult<T::V> {
        if exists|r: SpecResult<T::V>| may_return(*self, input, r) {
            choose|r: SpecResult<T::V>| may_return(*self, input, r)
        } else {
            Err(input)
        }
    }

    proof fn lemma_rest(&self, input: Seq<char>) {
        lemma_skip_is_rest(input, 0);
    }

    fn parse<'a>(&self, input: &'a str) -> (r: ParseResult<'a, T>) {
        let r = self(input);
        assert(may_return(*self, input@, result_view(r)));
        r
    }
}

/// `p.spec_parse` as a value.
pub open spec fn as_fn<P: Parser>(p: P) -> spec_fn(Seq<char>) -> SpecResult<
    <P::Output as DeepView>::V,
> {
    |input: Seq<char>| p.spec_parse(input)
}

/// `r`, a result on `input`, is a failure or has taken at least one character.
pub open spec fn takes_some<V>(r: SpecResult<V>, input: Seq<char>) -> bool {
    r matches Ok((rest, _)) ==> rest.len() < input.len()
}

/// Every success of `p` takes at least one character.
pub open spec fn consumes<P: Parser>(p: P) -> bool {
    forall|s: Seq<char>| takes_some(#[trigger] p.spec_parse(s), s)
}

/// What `the_letter_a` returns.
pub open spec fn spec_the_letter_a(input: Seq<char>) -> SpecResult<()> {
    if input.len() > 0 && input[0] == 'a' {
        Ok((input.drop_first(), ()))
    } else {
        Err(input)
    }
}

/// Takes one `a` off the input.
pub fn the_letter_a<'a>(input: &'a str) -> (r: ParseResult<'a, ()>)
    ensures
        result_view(r) == spec_the_letter_a(input@),
{
    match split_first(input) {
        Some((c, rest)) => if c == 'a' {
            Ok((rest, ()))
        } else {
            Err(input)
        },
        None => Err(input),
    }
}

/// What `match_literal(expected)` returns: `expected` is taken off an input
/// that starts with it; any other input fails as it is.
pub open spec fn spec_match_literal(expected: Seq<char>, input: Seq<char>) -> SpecResult<()> {
    if expected.is_prefix_of(input) {
        Ok((input.skip(expected.len() as int), ()))
    } else {
        Err(input)
    }
}

/// `match_literal(expected)` as a parser value.
pub struct MatchLiteral<'e> {
    pub expected: &'e str,
}

/// The parser that takes exactly `expected` off the input.
pub fn match_literal<'e>(expected: &'e str) -> (p: MatchLiteral<'e>)
    ensures
        p.expected@ == expected@,
        p.wf(),
{
    MatchLiteral { expected }
}

impl<'e> Parser for MatchLiteral<'e> {
    type Output = ();

    open spec fn wf(&self) -> bool {
        true
    }

    open spec fn spec_parse(&self, input: Seq<char>) -> SpecResult<()> {
        spec_match_literal(self.expected@, input)
    }

    proof fn lemma_rest(&self, input: Seq<char>) {
        if self.expected@.is_prefix_of(input) {
            lemma_skip_is_rest(input, self.expected@.len() as int);
        } else {
            lemma_skip_is_rest(input, 0);
        }
    }

    fn parse<'a>(&self, input: &'a str) -> (r: ParseResult<'a, ()>) {
        match strip_prefix(input, self.expected) {
            Some(rest) => Ok((rest, ())),
            None => Err(input),
        }
    }
}

/// What `any_char` returns: the first character, where there is one.
pub open spec fn spec_any_char(input: Seq<char>) -> SpecResult<char> {
    if input.len() > 0 {
        Ok((input.drop_first(), input[0]))
    } else {
        Err(input)
    }
}

/// Takes one character, whatever it is.
pub fn any_char<'a>(input: &'a str) -> (r: ParseResult<'a, char>)
    ensures
        result_view(r) == spec_any_char(input@),
{
    match split_first(input) {
        Some((c, rest)) => Ok((rest, c)),
        None => Err(input),
    }
}

/// `any_char` as a parser value.
pub struct AnyChar;

impl Parser for AnyChar {
    type Output = char;

    open spec fn wf(&self) -> bool {
        true
    }

    open spec fn spec_parse(&self, input: Seq<char>) -> SpecResult<char> {
        spec_any_char(input)
    }

    proof fn lemma_rest(&self, input: Seq<char>) {
        if input.len() > 0 {
            lemma_skip_is_rest(input, 1);
        } else {
            lemma_skip_is_rest(input, 0);
        }
    }

    fn parse<'a>(&self, input: &'a str) -> (r: ParseResult<'a, char>) {
        any_char(input)
    }
}

/// The length of the identifier at the front of `input`: an ASCII letter and
/// the identifier characters that follow it; 0 where there is none.
pub open spec fn identifier_len(input: Seq<char>) -> nat {
    if input.len() > 0 && is_ascii_alphabetic(input[0]) {
        1 + leading(input.drop_first(), identifier_class())
    } else {
        0
    }
}

/// `identifier_len` stays within the input.
pub proof fn lemma_identifier_len(input: Seq<char>)
    ensures
        identifier_len(input) <= input.len(),
{
    if input.len() > 0 {
        lemma_leading(input.drop_first(), identifier_class());
    }
}

/// What `identifier` returns: the identifier at the front of the input, where
/// there is one; any other input fails as it is.
pub open spec fn spec_identifier(input: Seq<char>) -> SpecResult<Seq<char>> {
    if identifier_len(input) > 0 {
        Ok((input.skip(identifier_len(input) as int), input.take(identifier_len(input) as int)))
    } else {
        Err(input)
    }
}

/// Takes an identifier: an ASCII letter, then ASCII letters, digits and
/// hyphens as far as they go.
pub fn identifier<'a>(input: &'a str) -> (r: ParseResult<'a, String>)
    ensures
        result_view(r) == spec_identifier(input@),
{
    match split_first(input) {
        Some((c, rest)) => {
            if !ascii_alphabetic(c) {
                return Err(input);
            }
            let mut matched = String::new();
            matched.push(c);
            let rest = take_identifier_chars(rest, &mut matched);
            proof {
                let n = leading(input@.drop_first(), identifier_class()) as int;
                lemma_leading(input@.drop_first(), identifier_class());
                assert(rest@ =~= input@.skip(n + 1));
                assert(matched@ =~= input@.take(n + 1));
            }
            Ok((rest, matched))
        },
        None => Err(input),
    }
}

/// `identifier` as a parser value.
pub struct Identifier;

impl Parser for Identifier {
    type Output = String;

    open spec fn wf(&self) -> bool {
        true
    }

    open spec fn spec_parse(&self, input: Seq<char>) -> SpecResult<Seq<char>> {
        spec_identifier(input)
    }

    proof fn lemma_rest(&self, input: Seq<char>) {
        let n = identifier_len(input) as int;
        lemma_identifier_len(input);
        lemma_skip_is_rest(input, n);
        assert(rest_of(self.spec_parse(input)) == if n > 0 {
            input.skip(n)
        } else {
            input
        });
    }

    fn parse<'a>(&self, input: &'a str) -> (r: ParseResult<'a, String>) {
        identifier(input)
    }
}

} // verus!
