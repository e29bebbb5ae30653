//! Parsers built from other parsers.

use crate::parser::{
    as_fn, consumes, is_rest_of, lemma_rest_of_rest, lemma_skip_is_rest, rest_of, takes_some,
    AnyChar, ParseResult, Parser, SpecResult,
};
use crate::text::{leading, lemma_leading};
use vstd::prelude::*;

verus! {

/// A test on parsed values, as `pred` takes it.
pub trait Predicate<T: DeepView> {
    /// What must hold of the predicate for `test` to be called on it.
    spec fn wf_predicate(&self) -> bool;

    /// The predicate as a mathematical function.
    spec fn holds(&self, value: T::V) -> bool;

    fn test(&self, value: &T) -> (b: bool)
        requires
            self.wf_predicate(),
        ensures
            b == self.holds(value.deep_view()),
    ;
}

/// A function is a predicate where it can be called on every value and gives
/// one answer for values with one view.
impl<T: DeepView, F: Fn(&T) -> bool> Predicate<T> for F {
    open spec fn wf_predicate(&self) -> bool {
        &&& forall|value: T| call_requires(*self, (&value,))
        &&& forall|v1: T, v2: T, b1: bool, b2: bool|
            v1.deep_view() == v2.deep_view() && call_ensures(*self, (&v1,), b1) && call_ensures(
                *self,
                (&v2,),
                b2,
            ) ==> b1 == b2
    }

    open spec fn holds(&self, value: T::V) -> bool {
        exists|v: T| v.deep_view() == value && call_ensures(*self, (&v,), true)
    }

    fn test(&self, value: &T) -> (b: bool) {
        self(value)
    }
}

/// `pred(parser, predicate)` as a parser value.
pub struct Pred<P, F> {
    pub parser: P,
    pub predicate: F,
}

/// The parser that runs `parser` and fails, on the input as it was, where
/// `predicate` rejects the value.
pub fn pred<P: Parser, F: Predicate<P::Output>>(parser: P, predicate: F) -> (p: Pred<P, F>)
    ensures
        p.parser == parser,
        p.predicate == predicate,
{
    Pred { parser, predicate }
}

impl<P: Parser, F: Predicate<P::Output>> Parser for Pred<P, F> {
    type Output = P::Output;

    open spec fn wf(&self) -> bool {
        self.parser.wf() && self.predicate.wf_predicate()
    }

    open spec fn spec_parse(&self, input: Seq<char>) -> SpecResult<<P::Output as DeepView>::V> {
        match self.parser.spec_parse(input) {
            Ok((rest, value)) => if self.predicate.holds(value) {
                Ok((rest, value))
            } else {
                Err(input)
            },
            Err(rest) => Err(rest),
        }
    }

    proof fn lemma_rest(&self, input: Seq<char>) {
        self.parser.lemma_rest(input);
        lemma_skip_is_rest(input, 0);
    }

    fn parse<'a>(&self, input: &'a str) -> (r: ParseResult<'a, P::Output>) {
        match self.parser.parse(input) {
            Ok((rest, value)) => {
                if self.predicate.test(&value) {
                    Ok((rest, value))
                } else {
                    Err(input)
                }
            },
            Err(rest) => Err(rest),
        }
    }
}

/// The characters other than one given character.
pub struct NotChar(pub char);

impl Predicate<char> for NotChar {
    open spec fn wf_predicate(&self) -> bool {
        true
    }

    open spec fn holds(&self, value: char) -> bool {
        value != self.0
    }

    fn test(&self, value: &char) -> (b: bool) {
        *value != self.0
    }
}

/// A function on parsed values, as `map` takes it.
pub trait Transform<A: DeepView> {
    type Output: DeepView;

    /// What must hold of the function for `apply` to be called on it.
    spec fn wf_transform(&self) -> bool;

    /// The function as a mathematical function.
    spec fn spec_apply(&self, value: A::V) -> <Self::Output as DeepView>::V;

    fn apply(&self, value: A) -> (out: Self::Output)
        requires
            self.wf_transform(),
        ensures
            out.deep_view() == self.spec_apply(value.deep_view()),
    ;
}

/// Some call of `f` on a value with the view `value` may return a value with
/// the view `out`.
pub open spec fn may_map<A: DeepView, B: DeepView, F: Fn(A) -> B>(
    f: F,
    value: A::V,
    out: B::V,
) -> bool {
    exists|a: A, b: B| #[trigger]
        call_ensures(f, (a,), b) && a.deep_view() == value && b.deep_view() == out
}

/// A function is a transform where it can be called on every value and maps
/// values with one view to values with one view.
impl<A: DeepView, B: DeepView, F: Fn(A) -> B> Transform<A> for F {
    type Output = B;

    open spec fn wf_transform(&self) -> bool {
        &&& forall|value: A| call_requires(*self, (value,))
        &&& forall|value: A::V, b1: B::V, b2: B::V|
            may_map(*self, value, b1) && may_map(*self, value, b2) ==> b1 == b2
    }

    open spec fn spec_apply(&self, value: A::V) -> B::V {
        choose|out: B::V| may_map(*self, value, out)
    }

    fn apply(&self, value: A) -> (out: B) {
        let out = self(value);
        assert(may_map(*self, value.deep_view(), out.deep_view()));
        out
    }
}

/// `map(parser, function)` as a parser value.
pub struct Mapped<P, F> {
    pub parser: P,
    pub function: F,
}

/// The parser that runs `parser` and applies `function` to its value.
pub fn map<P: Parser, F: Transform<P::Output>>(parser: P, function: F) -> (p: Mapped<P, F>)
    ensures
        p.parser == parser,
        p.function == function,
{
    Mapped { parser, function }
}

impl<P: Parser, F: Transform<P::Output>> Parser for Mapped<P, F> {
    type Output = F::Output;

    open spec fn wf(&self) -> bool {
        self.parser.wf() && self.function.wf_transform()
    }

    open spec fn spec_parse(&self, input: Seq<char>) -> SpecResult<<F::Output as DeepView>::V> {
        match self.parser.spec_parse(input) {
            Ok((rest, value)) => Ok((rest, self.function.spec_apply(value))),
            Err(rest) => Err(rest),
        }
    }

    proof fn lemma_rest(&self, input: Seq<char>) {
        self.parser.lemma_rest(input);
    }

    fn parse<'a>(&self, input: &'a str) -> (r: ParseResult<'a, F::Output>) {
        match self.parser.parse(input) {
            Ok((rest, value)) => Ok((rest, self.function.apply(value))),
            Err(rest) => Err(rest),
        }
    }
}

/// `pair(first, second)` as a parser value.
pub struct Pair<L, R> {
    pub first: L,
    pub second: R,
}

/// The parser that runs `first`, then `second` on what is left, and yields both
/// values. Where `second` fails, what `first` took is not given back.
pub fn pair<L: Parser, R: Parser>(first: L, second: R) -> (p: Pair<L, R>)
    ensures
        p.first == first,
        p.second == second,
{
    Pair { first, second }
}

impl<L: Parser, R: Parser> Parser for Pair<L, R> {
    type Output = (L::Output, R::Output);

    open spec fn wf(&self) -> bool {
        self.first.wf() && self.second.wf()
    }

    open spec fn spec_parse(&self, input: Seq<char>) -> SpecResult<
        (<L::Output as DeepView>::V, <R::Output as DeepView>::V),
    > {
        match self.first.spec_parse(input) {
            Ok((middle, a)) => match self.second.spec_parse(middle) {
                Ok((rest, b)) => Ok((rest, (a, b))),
                Err(rest) => Err(rest),
            },
            Err(rest) => Err(rest),
        }
    }

    proof fn lemma_rest(&self, input: Seq<char>) {
        self.first.lemma_rest(input);
        if let Ok((middle, _)) = self.first.spec_parse(input) {
            self.second.lemma_rest(middle);
            lemma_rest_of_rest(rest_of(self.second.spec_parse(middle)), middle, input);
        }
    }

    fn parse<'a>(&self, input: &'a str) -> (r: ParseResult<'a, (L::Output, R::Output)>) {
        match self.first.parse(input) {
            Ok((middle, a)) => match self.second.parse(middle) {
                Ok((rest, b)) => Ok((rest, (a, b))),
                Err(rest) => Err(rest),
            },
            Err(rest) => Err(rest),
        }
    }
}

/// Where the first of two parsers takes characters, so does the pair.
pub proof fn lemma_pair_consumes<L: Parser, R: Parser>(first: L, second: R)
    requires
        first.wf(),
        second.wf(),
        consumes(first),
    ensures
        consumes(Pair { first, second }),
        consumes(Left { first, second }),
        consumes(Right { first, second }),
{
    let p = Pair { first, second };
    assert forall|s: Seq<char>| takes_some(#[trigger] p.spec_parse(s), s) by {
        if let Ok((middle, _)) = first.spec_parse(s) {
            assert(takes_some(first.spec_parse(s), s));
            second.lemma_rest(middle);
        }
    }
    assert forall|s: Seq<char>| takes_some(
        #[trigger] (Left { first, second }).spec_parse(s),
        s,
    ) by {
        assert(takes_some(p.spec_parse(s), s));
    }
    assert forall|s: Seq<char>| takes_some(
        #[trigger] (Right { first, second }).spec_parse(s),
        s,
    ) by {
        assert(takes_some(p.spec_parse(s), s));
    }
}

/// `left(first, second)` as a parser value.
pub struct Left<L, R> {
    pub first: L,
    pub second: R,
}

/// `pair(first, second)`, yielding the value of `first` alone.
pub fn left<L: Parser, R: Parser>(first: L, second: R) -> (p: Left<L, R>)
    ensures
        p.first == first,
        p.second == second,
{
    Left { first, second }
}

impl<L: Parser, R: Parser> Parser for Left<L, R> {
    type Output = L::Output;

    open spec fn wf(&self) -> bool {
        self.first.wf() && self.second.wf()
    }

    open spec fn spec_parse(&self, input: Seq<char>) -> SpecResult<<L::Output as DeepView>::V> {
        match (Pair { first: self.first, second: self.second }).spec_parse(input) {
            Ok((rest, (a, _))) => Ok((rest, a)),
            Err(rest) => Err(rest),
        }
    }

    proof fn lemma_rest(&self, input: Seq<char>) {
        (Pair { first: self.first, second: self.second }).lemma_rest(input);
    }

    fn parse<'a>(&self, input: &'a str) -> (r: ParseResult<'a, L::Output>) {
        match self.first.parse(input) {
            Ok((middle, a)) => match self.second.parse(middle) {
                Ok((rest, _)) => Ok((rest, a)),
                Err(rest) => Err(rest),
            },
            Err(rest) => Err(rest),
        }
    }
}

/// `right(first, second)` as a parser value.
pub struct Right<L, R> {
    pub first: L,
    pub second: R,
}

/// `pair(first, second)`, yielding the value of `second` alone.
pub fn right<L: Parser, R: Parser>(first: L, second: R) -> (p: Right<L, R>)
    ensures
        p.first == first,
        p.second == second,
{
    Right { first, second }
}

impl<L: Parser, R: Parser> Parser for Right<L, R> {
    type Output = R::Output;

    open spec fn wf(&self) -> bool {
        self.first.wf() && self.second.wf()
    }

    open spec fn spec_parse(&self, input: Seq<char>) -> SpecResult<<R::Output as DeepView>::V> {
        match (Pair { first: self.first, second: self.second }).spec_parse(input) {
            Ok((rest, (_, b))) => Ok((rest, b)),
            Err(rest) => Err(rest),
        }
    }

    proof fn lemma_rest(&self, input: Seq<char>) {
        (Pair { first: self.first, second: self.second }).lemma_rest(input);
    }

    fn parse<'a>(&self, input: &'a str) -> (r: ParseResult<'a, R::Output>) {
        match self.first.parse(input) {
            Ok((middle, _)) => self.second.parse(middle),
            Err(rest) => Err(rest),
        }
    }
}

/// `either(first, second)` as a parser value.
pub struct Either<L, R> {
    pub first: L,
    pub second: R,
}

/// The parser that runs `first` and, where it fails, `second` on the same input.
pub fn either<L: Parser, R: Parser<Output = L::Output>>(first: L, second: R) -> (p: Either<
    L,
    R,
>)
    ensures
        p.first == first,
        p.second == second,
{
    Either { first, second }
}

impl<L: Parser, R: Parser<Output = L::Output>> Parser for Either<L, R> {
    type Output = L::Output;

    open spec fn wf(&self) -> bool {
        self.first.wf() && self.second.wf()
    }

    open spec fn spec_parse(&self, input: Seq<char>) -> SpecResult<<L::Output as DeepView>::V> {
        match self.first.spec_parse(input) {
            Ok(done) => Ok(done),
            Err(_) => self.second.spec_parse(input),
        }
    }

    proof fn lemma_rest(&self, input: Seq<char>) {
        self.first.lemma_rest(input);
        self.second.lemma_rest(input);
    }

    fn parse<'a>(&self, input: &'a str) -> (r: ParseResult<'a, L::Output>) {
        match self.first.parse(input) {
            Ok(done) => Ok(done),
            Err(_) => self.second.parse(input),
        }
    }
}

/// `either` returns what its first parser returns where that succeeds, and
/// else what its second parser returns on the same input, whatever the first
/// one had taken before it failed.
pub proof fn lemma_either<L: Parser, R: Parser<Output = L::Output>>(
    first: L,
    second: R,
    input: Seq<char>,
)
    ensures
        first.spec_parse(input) is Ok ==> (Either { first, second }).spec_parse(input)
            == first.spec_parse(input),
        first.spec_parse(input) is Err ==> (Either { first, second }).spec_parse(input)
            == second.spec_parse(input),
{
}

/// The values that `step` yields when applied over and over from `input` on,
/// until it fails or takes nothing, and the input that is then left.
pub open spec fn spec_repeat<V>(step: spec_fn(Seq<char>) -> SpecResult<V>, input: Seq<char>) -> (
    Seq<char>,
    Seq<V>,
)
    decreases input.len(),
{
    match step(input) {
        Ok((rest, value)) => if rest.len() < input.len() {
            let (end, values) = spec_repeat(step, rest);
            (end, seq![value] + values)
        } else {
            (input, Seq::empty())
        },
        Err(_) => (input, Seq::empty()),
    }
}

/// What repetition leaves is a rest of the input.
pub proof fn lemma_repeat_rest<V>(step: spec_fn(Seq<char>) -> SpecResult<V>, input: Seq<char>)
    requires
        forall|s: Seq<char>| is_rest_of(rest_of(#[trigger] step(s)), s),
    ensures
        is_rest_of(spec_repeat(step, input).0, input),
    decreases input.len(),
{
    lemma_skip_is_rest(input, 0);
    if let Ok((rest, _)) = step(input) {
        if rest.len() < input.len() {
            lemma_repeat_rest(step, rest);
            lemma_rest_of_rest(spec_repeat(step, rest).0, rest, input);
        }
    }
}

/// Steps that agree on every input repeat alike.
pub proof fn lemma_repeat_agree<V>(
    f: spec_fn(Seq<char>) -> SpecResult<V>,
    g: spec_fn(Seq<char>) -> SpecResult<V>,
    input: Seq<char>,
)
    requires
        forall|s: Seq<char>| #[trigger] f(s) == g(s),
    ensures
        spec_repeat(f, input) == spec_repeat(g, input),
    decreases input.len(),
{
    if let Ok((rest, _)) = f(input) {
        if rest.len() < input.len() {
            lemma_repeat_agree(f, g, rest);
        }
    }
}

/// A parser returns a rest of its input, as a fact on `as_fn`.
pub proof fn lemma_as_fn_rest<P: Parser>(p: P)
    requires
        p.wf(),
    ensures
        forall|s: Seq<char>| is_rest_of(rest_of(#[trigger] as_fn(p)(s)), s),
{
    assert forall|s: Seq<char>| is_rest_of(rest_of(#[trigger] as_fn(p)(s)), s) by {
        p.lemma_rest(s);
    }
}

/// The view of a vector after a push.
pub proof fn lemma_deep_view_push<T: DeepView>(before: Vec<T>, after: Vec<T>, value: T)
    requires
        after@ == before@.push(value),
    ensures
        after.deep_view() == before.deep_view().push(value.deep_view()),
{
    assert(after.deep_view() =~= before.deep_view().push(value.deep_view()));
}

/// Applies `parser` from `input` on until it fails, adding the values to
/// `values`.
fn repeat<'a, P: Parser>(parser: &P, input: &'a str, values: &mut Vec<P::Output>) -> (end: &'a str)
    requires
        parser.wf(),
        consumes(*parser),
    ensures
        end@ == spec_repeat(as_fn(*parser), input@).0,
        final(values).deep_view() == old(values).deep_view() + spec_repeat(
            as_fn(*parser),
            input@,
        ).1,
{
    let mut have = input;
    loop
        invariant
            parser.wf(),
            consumes(*parser),
            spec_repeat(as_fn(*parser), input@).0 == spec_repeat(as_fn(*parser), have@).0,
            old(values).deep_view() + spec_repeat(as_fn(*parser), input@).1 == values.deep_view()
                + spec_repeat(as_fn(*parser), have@).1,
        decreases have@.len(),
    {
        match parser.parse(have) {
            Ok((rest, value)) => {
                let ghost before = *values;
                let ghost tail = spec_repeat(as_fn(*parser), rest@).1;
                values.push(value);
                proof {
                    lemma_deep_view_push(before, *values, value);
                    assert(values.deep_view() + tail =~= before.deep_view() + (seq![
                        value.deep_view(),
                    ] + tail));
                }
                have = rest;
            },
            Err(_) => {
                assert(values.deep_view() + Seq::empty() =~= values.deep_view());
                return have;
            },
        }
    }
}

/// `zero_or_more(parser)` as a parser value. It can be run where `parser`
/// takes at least one character whenever it succeeds.
pub struct ZeroOrMore<P> {
    pub parser: P,
}

/// The parser that runs `parser` until it fails and yields the values in their
/// order; it takes nothing where the first run fails.
pub fn zero_or_more<P: Parser>(parser: P) -> (p: ZeroOrMore<P>)
    ensures
        p.parser == parser,
{
    ZeroOrMore { parser }
}

impl<P: Parser> Parser for ZeroOrMore<P> {
    type Output = Vec<P::Output>;

    open spec fn wf(&self) -> bool {
        self.parser.wf() && consumes(self.parser)
    }

    open spec fn spec_parse(&self, input: Seq<char>) -> SpecResult<
        Seq<<P::Output as DeepView>::V>,
    > {
        Ok(spec_repeat(as_fn(self.parser), input))
    }

    proof fn lemma_rest(&self, input: Seq<char>) {
        lemma_as_fn_rest(self.parser);
        lemma_repeat_rest(as_fn(self.parser), input);
    }

    fn parse<'a>(&self, input: &'a str) -> (r: ParseResult<'a, Vec<P::Output>>) {
        let mut values = Vec::new();
        let end = repeat(&self.parser, input, &mut values);
        assert(Seq::<<P::Output as DeepView>::V>::empty() + spec_repeat(
            as_fn(self.parser),
            input@,
        ).1 =~= spec_repeat(as_fn(self.parser), input@).1);
        Ok((end, values))
    }
}

/// `one_or_more(parser)` as a parser value. It can be run where `parser` takes
/// at least one character whenever it succeeds.
pub struct OneOrMore<P> {
    pub parser: P,
}

/// The parser that runs `parser` until it fails and yields the values in their
/// order; it fails, on the input as it was, where the first run fails.
pub fn one_or_more<P: Parser>(parser: P) -> (p: OneOrMore<P>)
    ensures
        p.parser == parser,
{
    OneOrMore { parser }
}

impl<P: Parser> Parser for OneOrMore<P> {
    type Output = Vec<P::Output>;

    open spec fn wf(&self) -> bool {
        self.parser.wf() && consumes(self.parser)
    }

    open spec fn spec_parse(&self, input: Seq<char>) -> SpecResult<
        Seq<<P::Output as DeepView>::V>,
    > {
        match self.parser.spec_parse(input) {
            Ok((rest, value)) => Ok(
                (
                    spec_repeat(as_fn(self.parser), rest).0,
                    seq![value] + spec_repeat(as_fn(self.parser), rest).1,
                ),
            ),
            Err(_) => Err(input),
        }
    }

    proof fn lemma_rest(&self, input: Seq<char>) {
        lemma_skip_is_rest(input, 0);
        if let Ok((rest, _)) = self.parser.spec_parse(input) {
            self.parser.lemma_rest(input);
            lemma_as_fn_rest(self.parser);
            lemma_repeat_rest(as_fn(self.parser), rest);
            lemma_rest_of_rest(spec_repeat(as_fn(self.parser), rest).0, rest, input);
        }
    }

    fn parse<'a>(&self, input: &'a str) -> (r: ParseResult<'a, Vec<P::Output>>) {
        match self.parser.parse(input) {
            Ok((rest, value)) => {
                let mut values = Vec::new();
                values.push(value);
                let ghost first = values;
                let end = repeat(&self.parser, rest, &mut values);
                assert(first.deep_view() =~= seq![value.deep_view()]);
                Ok((end, values))
            },
            Err(_) => Err(input),
        }
    }
}

/// One or more applications of a parser that takes characters take
/// characters.
pub proof fn lemma_one_or_more_consumes<P: Parser>(parser: P)
    requires
        parser.wf(),
        consumes(parser),
    ensures
        consumes(OneOrMore { parser }),
{
    let p = OneOrMore { parser };
    assert forall|s: Seq<char>| takes_some(#[trigger] p.spec_parse(s), s) by {
        if let Ok((rest, _)) = parser.spec_parse(s) {
            assert(takes_some(parser.spec_parse(s), s));
            lemma_as_fn_rest(parser);
            lemma_repeat_rest(as_fn(parser), rest);
        }
    }
}

/// A function from a parsed value to the parser that goes on, as `and_then`
/// takes it.
pub trait Chain<A: DeepView> {
    type Next: Parser;

    /// What must hold of the function for `next` to be called on it.
    spec fn wf_chain(&self) -> bool;

    /// What the parser chosen for `value` returns on `input`.
    spec fn spec_next(&self, value: A::V, input: Seq<char>) -> SpecResult<
        <<Self::Next as Parser>::Output as DeepView>::V,
    >;

    /// The parser chosen returns a rest of its input.
    proof fn lemma_next_rest(&self, value: A::V, input: Seq<char>)
        requires
            self.wf_chain(),
        ensures
            is_rest_of(rest_of(self.spec_next(value, input)), input),
    ;

    fn next(&self, value: A) -> (p: Self::Next)
        requires
            self.wf_chain(),
        ensures
            p.wf(),
            forall|input: Seq<char>| #[trigger]
                p.spec_parse(input) == self.spec_next(value.deep_view(), input),
    ;
}

/// Some call of `f` on a value with the view `value` may return a parser that
/// returns `r` on `input`.
pub open spec fn may_follow<A: DeepView, P: Parser, F: Fn(A) -> P>(
    f: F,
    value: A::V,
    input: Seq<char>,
    r: SpecResult<<P::Output as DeepView>::V>,
) -> bool {
    exists|a: A, p: P| #[trigger]
        call_ensures(f, (a,), p) && a.deep_view() == value && p.spec_parse(input) == r
}

/// A function is a chain where it can be called on every value, returns
/// parsers that can be called, and for values with one view returns parsers
/// that agree.
impl<A: DeepView, P: Parser, F: Fn(A) -> P> Chain<A> for F {
    type Next = P;

    open spec fn wf_chain(&self) -> bool {
        &&& forall|value: A| call_requires(*self, (value,))
        &&& forall|value: A, p: P| call_ensures(*self, (value,), p) ==> p.wf()
        &&& forall|
            value: A::V,
            input: Seq<char>,
            r1: SpecResult<<P::Output as DeepView>::V>,
            r2: SpecResult<<P::Output as DeepView>::V>,
        |
            may_follow(*self, value, input, r1) && may_follow(*self, value, input, r2) ==> r1
                == r2
    }

    open spec fn spec_next(&self, value: A::V, input: Seq<char>) -> SpecResult<
        <P::Output as DeepView>::V,
    > {
        if exists|r: SpecResult<<P::Output as DeepView>::V>| may_follow(*self, value, input, r) {
            choose|r: SpecResult<<P::Output as DeepView>::V>| may_follow(*self, value, input, r)
        } else {
            Err(input)
        }
    }

    proof fn lemma_next_rest(&self, value: A::V, input: Seq<char>) {
        lemma_skip_is_rest(input, 0);
        let r = self.spec_next(value, input);
        if may_follow(*self, value, input, r) {
            let (a, p) = choose|a: A, p: P| #[trigger]
                call_ensures(*self, (a,), p) && a.deep_view() == value && p.spec_parse(input)
                    == r;
            p.lemma_rest(input);
        }
    }

    fn next(&self, value: A) -> (p: P) {
        let p = self(value);
        assert forall|input: Seq<char>| #[trigger]
            p.spec_parse(input) == self.spec_next(value.deep_view(), input) by {
            assert(may_follow(*self, value.deep_view(), input, p.spec_parse(input)));
        }
        p
    }
}

/// `and_then(parser, chain)` as a parser value.
pub struct AndThen<P, F> {
    pub parser: P,
    pub chain: F,
}

/// The parser that runs `parser`, hands its value to `chain`, and runs the parser
/// that `chain` returns on what is left.
pub fn and_then<P: Parser, F: Chain<P::Output>>(parser: P, chain: F) -> (p: AndThen<P, F>)
    ensures
        p.parser == parser,
        p.chain == chain,
{
    AndThen { parser, chain }
}

impl<P: Parser, F: Chain<P::Output>> Parser for AndThen<P, F> {
    type Output = <F::Next as Parser>::Output;

    open spec fn wf(&self) -> bool {
        self.parser.wf() && self.chain.wf_chain()
    }

    open spec fn spec_parse(&self, input: Seq<char>) -> SpecResult<
        <<F::Next as Parser>::Output as DeepView>::V,
    > {
        match self.parser.spec_parse(input) {
            Ok((rest, value)) => self.chain.spec_next(value, rest),
            Err(rest) => Err(rest),
        }
    }

    proof fn lemma_rest(&self, input: Seq<char>) {
        self.parser.lemma_rest(input);
        if let Ok((rest, value)) = self.parser.spec_parse(input) {
            self.chain.lemma_next_rest(value, rest);
            lemma_rest_of_rest(rest_of(self.chain.spec_next(value, rest)), rest, input);
        }
    }

    fn parse<'a>(&self, input: &'a str) -> (r: ParseResult<'a, <F::Next as Parser>::Output>) {
        match self.parser.parse(input) {
            Ok((rest, value)) => self.chain.next(value).parse(rest),
            Err(rest) => Err(rest),
        }
    }
}

/// A parser of single characters of one class takes characters.
pub proof fn lemma_class_consumes<C: Predicate<char>>(class: C)
    ensures
        consumes(Pred { parser: AnyChar, predicate: class }),
{
}

/// Repeating a parser of single characters of one class takes the leading
/// characters of that class.
pub proof fn lemma_repeat_class<C: Predicate<char>>(
    class: C,
    input: Seq<char>,
    holds: spec_fn(char) -> bool,
)
    requires
        forall|c: char| #[trigger] holds(c) == class.holds(c),
    ensures
        spec_repeat(as_fn(Pred { parser: AnyChar, predicate: class }), input) == (
            input.skip(leading(input, holds) as int),
            input.take(leading(input, holds) as int),
        ),
    decreases input.len(),
{
    let p = Pred { parser: AnyChar, predicate: class };
    let n = leading(input, holds) as int;
    if input.len() > 0 && holds(input[0]) {
        let rest = input.drop_first();
        lemma_repeat_class(class, rest, holds);
        lemma_leading(rest, holds);
        let m = leading(rest, holds) as int;
        assert(p.spec_parse(input) == Ok::<_, Seq<char>>((rest, input[0])));
        assert(rest.skip(m) =~= input.skip(n));
        assert(seq![input[0]] + rest.take(m) =~= input.take(n));
    } else {
        assert(input.skip(0) =~= input);
        assert(input.take(0) =~= Seq::<char>::empty());
    }
}

} // verus!
