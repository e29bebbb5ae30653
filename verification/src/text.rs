//! Character classes and the few operations on string slices that the parsers
//! are built from.

use core::str::Chars;
use vstd::prelude::*;
use vstd::std_specs::iter::IteratorSpec;

verus! {

/// The ASCII letters: `a` to `z` and `A` to `Z`.
pub open spec fn is_ascii_alphabetic(c: char) -> bool {
    ('a' <= c && c <= 'z') || ('A' <= c && c <= 'Z')
}

/// The characters an identifier may hold after its first one: ASCII letters,
/// ASCII digits and the hyphen.
pub open spec fn is_identifier_char(c: char) -> bool {
    is_ascii_alphabetic(c) || ('0' <= c && c <= '9') || c == '-'
}

/// The characters with the Unicode property `White_Space`.
pub open spec fn is_whitespace(c: char) -> bool {
    ||| ('\u{9}' <= c && c <= '\u{D}')
    ||| c == ' '
    ||| c == '\u{85}'
    ||| c == '\u{A0}'
    ||| c == '\u{1680}'
    ||| ('\u{2000}' <= c && c <= '\u{200A}')
    ||| c == '\u{2028}'
    ||| c == '\u{2029}'
    ||| c == '\u{202F}'
    ||| c == '\u{205F}'
    ||| c == '\u{3000}'
}

/// Whether `c` is an ASCII letter.
pub fn ascii_alphabetic(c: char) -> (b: bool)
    ensures
        b == is_ascii_alphabetic(c),
{
    ('a' <= c && c <= 'z') || ('A' <= c && c <= 'Z')
}

/// Whether `c` may stand in an identifier after its first character.
pub fn identifier_char(c: char) -> (b: bool)
    ensures
        b == is_identifier_char(c),
{
    ascii_alphabetic(c) || ('0' <= c && c <= '9') || c == '-'
}

/// Whether `c` is whitespace.
pub fn whitespace(c: char) -> (b: bool)
    ensures
        b == is_whitespace(c),
{
    ('\u{9}' <= c && c <= '\u{D}') || c == ' ' || c == '\u{85}' || c == '\u{A0}' || c == '\u{1680}'
        || ('\u{2000}' <= c && c <= '\u{200A}') || c == '\u{2028}' || c == '\u{2029}' || c
        == '\u{202F}' || c == '\u{205F}' || c == '\u{3000}'
}

/// `is_identifier_char` as a value.
pub open spec fn identifier_class() -> spec_fn(char) -> bool {
    |c: char| is_identifier_char(c)
}

/// `is_whitespace` as a value.
pub open spec fn whitespace_class() -> spec_fn(char) -> bool {
    |c: char| is_whitespace(c)
}

/// Every character but `q`.
pub open spec fn all_but(q: char) -> spec_fn(char) -> bool {
    |c: char| c != q
}

/// How many characters at the front of `s` satisfy `class`.
pub open spec fn leading(s: Seq<char>, class: spec_fn(char) -> bool) -> nat
    decreases s.len(),
{
    if s.len() > 0 && class(s[0]) {
        1 + leading(s.drop_first(), class)
    } else {
        0
    }
}

/// `leading` is the one index at which the run of `class` characters stops.
pub proof fn lemma_leading(s: Seq<char>, class: spec_fn(char) -> bool)
    ensures
        leading(s, class) <= s.len(),
        forall|i: int| 0 <= i < leading(s, class) ==> class(#[trigger] s[i]),
        leading(s, class) < s.len() ==> !class(s[leading(s, class) as int]),
    decreases s.len(),
{
    if s.len() > 0 && class(s[0]) {
        let t = s.drop_first();
        lemma_leading(t, class);
        assert forall|i: int| 0 <= i < leading(s, class) implies class(#[trigger] s[i]) by {
            if i > 0 {
                assert(s[i] == t[i - 1]);
            }
        }
        if leading(s, class) < s.len() {
            assert(s[leading(s, class) as int] == t[leading(t, class) as int]);
        }
    }
}

/// Any index with the two properties of `lemma_leading` is `leading`.
pub proof fn lemma_leading_unique(s: Seq<char>, class: spec_fn(char) -> bool, n: int)
    requires
        0 <= n <= s.len(),
        forall|i: int| 0 <= i < n ==> class(#[trigger] s[i]),
        n < s.len() ==> !class(s[n]),
    ensures
        leading(s, class) == n,
{
    lemma_leading(s, class);
    let m = leading(s, class) as int;
    if m < n {
        assert(class(s[m]));
    } else if n < m {
        assert(class(s[n]));
    }
}

/// `Chars::as_str` of std: the part of the string slice that the iterator has
/// not yet yielded.
pub assume_specification<'a>[ Chars::<'a>::as_str ](chars: &Chars<'a>) -> (rest: &'a str)
    ensures
        rest@ == chars.remaining(),
;

/// `String::push` of std: appends one character.
pub assume_specification[ String::push ](s: &mut String, c: char)
    ensures
        final(s)@ == old(s)@.push(c),
;

/// Splits the first character off `input`; `None` on the empty string.
pub fn split_first<'a>(input: &'a str) -> (r: Option<(char, &'a str)>)
    ensures
        match r {
            Some((c, rest)) => input@.len() > 0 && c == input@[0] && rest@ == input@.drop_first(),
            None => input@.len() == 0,
        },
{
    let mut chars = input.chars();
    match chars.next() {
        Some(c) => Some((c, chars.as_str())),
        None => None,
    }
}

/// Strips `expected` from the front of `input`; `None` where `input` does not
/// start with it.
pub fn strip_prefix<'a>(input: &'a str, expected: &str) -> (r: Option<&'a str>)
    ensures
        match r {
            Some(rest) => expected@.is_prefix_of(input@) && rest@ == input@.skip(
                expected@.len() as int,
            ),
            None => !expected@.is_prefix_of(input@),
        },
{
    let mut want = expected;
    let mut have = input;
    let ghost k: int = 0;
    loop
        invariant
            0 <= k <= expected@.len(),
            k <= input@.len(),
            want@ == expected@.skip(k),
            have@ == input@.skip(k),
            forall|i: int| 0 <= i < k ==> expected@[i] == input@[i],
        decreases want@.len(),
    {
        match split_first(want) {
            None => {
                assert(expected@ =~= input@.subrange(0, k));
                return Some(have);
            },
            Some((c, want_rest)) => {
                match split_first(have) {
                    None => {
                        return None;
                    },
                    Some((d, have_rest)) => {
                        assert(c == expected@[k] && d == input@[k]);
                        if c != d {
                            return None;
                        }
                        assert(want_rest@ =~= expected@.skip(k + 1));
                        assert(have_rest@ =~= input@.skip(k + 1));
                        want = want_rest;
                        have = have_rest;
                        proof {
                            k = k + 1;
                        }
                    },
                }
            },
        }
    }
}

/// Takes the longest run of identifier characters off the front of `input`
/// and appends it to `taken`.
pub fn take_identifier_chars<'a>(input: &'a str, taken: &mut String) -> (rest: &'a str)
    ensures
        final(taken)@ == old(taken)@ + input@.take(leading(input@, identifier_class()) as int),
        rest@ == input@.skip(leading(input@, identifier_class()) as int),
{
    let mut have = input;
    let ghost k: int = 0;
    loop
        invariant
            0 <= k <= input@.len(),
            have@ == input@.skip(k),
            taken@ == old(taken)@ + input@.take(k),
            forall|i: int| 0 <= i < k ==> identifier_class()(#[trigger] input@[i]),
        decreases have@.len(),
    {
        match split_first(have) {
            Some((c, have_rest)) => {
                assert(c == input@[k]);
                if !identifier_char(c) {
                    proof {
                        lemma_leading_unique(input@, identifier_class(), k);
                    }
                    return have;
                }
                taken.push(c);
                assert(have_rest@ =~= input@.skip(k + 1));
                assert(input@.take(k + 1) =~= input@.take(k).push(c));
                assert(taken@ =~= old(taken)@ + input@.take(k + 1));
                have = have_rest;
                proof {
                    k = k + 1;
                }
            },
            None => {
                proof {
                    lemma_leading_unique(input@, identifier_class(), k);
                }
                return have;
            },
        }
    }
}

} // verus!
