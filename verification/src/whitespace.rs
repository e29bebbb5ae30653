//! Parsers of whitespace.

use crate::combinators::{
    left, lemma_class_consumes, lemma_one_or_more_consumes, lemma_repeat_class, one_or_more, pred,
    right, zero_or_more, Left, OneOrMore, Pred, Predicate, Right, ZeroOrMore,
};
use crate::parser::{consumes, is_rest_of, lemma_skip_is_rest, AnyChar, Parser, SpecResult};
use crate::text::{is_whitespace, leading, lemma_leading, whitespace, whitespace_class};
use vstd::prelude::*;

verus! {

/// The whitespace characters.
pub struct Whitespace;

impl Predicate<char> for Whitespace {
    open spec fn wf_predicate(&self) -> bool {
        true
    }

    open spec fn holds(&self, value: char) -> bool {
        is_whitespace(value)
    }

    fn test(&self, value: &char) -> (b: bool) {
        whitespace(*value)
    }
}

/// The type of `whitespace_char()`.
pub type WhitespaceChar = Pred<AnyChar, Whitespace>;

/// The type of `space0()`.
pub type Space0 = ZeroOrMore<WhitespaceChar>;

/// The type of `space1()`.
pub type Space1 = OneOrMore<WhitespaceChar>;

/// The type of `whitespace_wrap(parser)`.
pub type WhitespaceWrap<P> = Right<Space0, Left<P, Space0>>;

/// The value that `whitespace_char` returns.
pub open spec fn whitespace_char_value() -> WhitespaceChar {
    Pred { parser: AnyChar, predicate: Whitespace }
}

/// One whitespace character.
pub fn whitespace_char() -> (p: WhitespaceChar)
    ensures
        p == whitespace_char_value(),
        p.wf(),
{
    pred(AnyChar, Whitespace)
}

/// The input without its leading whitespace.
pub open spec fn trim_start(input: Seq<char>) -> Seq<char> {
    input.skip(leading(input, whitespace_class()) as int)
}

/// Leading whitespace taken off leaves a rest of the input.
pub proof fn lemma_trim_start_rest(input: Seq<char>)
    ensures
        is_rest_of(trim_start(input), input),
{
    lemma_leading(input, whitespace_class());
    lemma_skip_is_rest(input, leading(input, whitespace_class()) as int);
}

/// What `space0()` returns: the leading whitespace is taken off; it never
/// fails.
pub open spec fn spec_space0(input: Seq<char>) -> SpecResult<Seq<char>> {
    Ok((trim_start(input), input.take(leading(input, whitespace_class()) as int)))
}

/// Zero or more whitespace characters.
pub fn space0() -> (p: Space0)
    ensures
        p == (ZeroOrMore { parser: whitespace_char_value() }),
        p.wf(),
        forall|input: Seq<char>| #[trigger] p.spec_parse(input) == spec_space0(input),
{
    let p = zero_or_more(whitespace_char());
    proof {
        lemma_class_consumes(Whitespace);
        assert forall|input: Seq<char>| #[trigger] p.spec_parse(input) == spec_space0(input) by {
            lemma_repeat_class(Whitespace, input, whitespace_class());
        }
    }
    p
}

/// What `space1()` returns: the leading whitespace is taken off; an input
/// that starts with none fails as it is.
pub open spec fn spec_space1(input: Seq<char>) -> SpecResult<Seq<char>> {
    if leading(input, whitespace_class()) > 0 {
        spec_space0(input)
    } else {
        Err(input)
    }
}

/// What one or more whitespace characters come to.
pub proof fn lemma_space1(input: Seq<char>)
    ensures
        (OneOrMore { parser: whitespace_char_value() }).spec_parse(input) == spec_space1(input),
{
    let n = leading(input, whitespace_class()) as int;
    if input.len() > 0 && is_whitespace(input[0]) {
        let rest = input.drop_first();
        lemma_repeat_class(Whitespace, rest, whitespace_class());
        lemma_leading(rest, whitespace_class());
        let m = leading(rest, whitespace_class()) as int;
        assert(rest.skip(m) =~= input.skip(n));
        assert(seq![input[0]] + rest.take(m) =~= input.take(n));
    }
}

/// One or more whitespace characters.
pub fn space1() -> (p: Space1)
    ensures
        p == (OneOrMore { parser: whitespace_char_value() }),
        p.wf(),
        consumes(p),
        forall|input: Seq<char>| #[trigger] p.spec_parse(input) == spec_space1(input),
{
    let p = one_or_more(whitespace_char());
    proof {
        lemma_class_consumes(Whitespace);
        lemma_one_or_more_consumes(p.parser);
        assert forall|input: Seq<char>| #[trigger] p.spec_parse(input) == spec_space1(input) by {
            lemma_space1(input);
        }
    }
    p
}

/// `parser` with whitespace taken off before and after it.
pub open spec fn spec_whitespace_wrap<P: Parser>(parser: P, input: Seq<char>) -> SpecResult<
    <P::Output as DeepView>::V,
> {
    match parser.spec_parse(trim_start(input)) {
        Ok((rest, value)) => Ok((trim_start(rest), value)),
        Err(rest) => Err(rest),
    }
}

/// `parser` between zero or more whitespace characters on each side.
pub fn whitespace_wrap<P: Parser>(parser: P) -> (p: WhitespaceWrap<P>)
    ensures
        p.second.first == parser,
        parser.wf() ==> p.wf(),
        forall|input: Seq<char>| #[trigger]
            p.spec_parse(input) == spec_whitespace_wrap(parser, input),
{
    right(space0(), left(parser, space0()))
}

} // verus!
