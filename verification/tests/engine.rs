use xml_combinators::text::{
    ascii_alphabetic, identifier_char, split_first, strip_prefix, take_identifier_chars, whitespace,
};
use xml_combinators::{
    and_then, any_char, close_element, either, identifier, left, match_literal, one_or_more, pair,
    pred, right, space0, space1, the_letter_a, whitespace_char, whitespace_wrap, zero_or_more,
    AnyChar, Identifier, NotChar, Parser, Whitespace,
};

#[test]
fn whitespace_is_the_unicode_property() {
    let mut code: u32 = 0;
    while code <= 0x10FFFF {
        if let Some(c) = char::from_u32(code) {
            assert_eq!(whitespace(c), c.is_whitespace(), "U+{:X}", code);
        }
        code += 1;
    }
}

#[test]
fn letters_and_identifier_characters_are_ascii() {
    let mut code: u32 = 0;
    while code <= 0x10FFFF {
        if let Some(c) = char::from_u32(code) {
            assert_eq!(ascii_alphabetic(c), c.is_ascii_alphabetic(), "U+{:X}", code);
            assert_eq!(
                identifier_char(c),
                c.is_ascii_alphanumeric() || c == '-',
                "U+{:X}",
                code
            );
        }
        code += 1;
    }
}

#[test]
fn split_first_takes_one_character() {
    assert_eq!(split_first(""), None);
    assert_eq!(split_first("a"), Some(('a', "")));
    assert_eq!(split_first("ab"), Some(('a', "b")));
    assert_eq!(split_first("\u{e9}t\u{e9}"), Some(('\u{e9}', "t\u{e9}")));
    assert_eq!(split_first("\u{1F600}!"), Some(('\u{1F600}', "!")));
}

#[test]
fn strip_prefix_takes_the_prefix_or_nothing() {
    assert_eq!(strip_prefix("hello world", "hello"), Some(" world"));
    assert_eq!(strip_prefix("hello", "hello"), Some(""));
    assert_eq!(strip_prefix("hello", ""), Some("hello"));
    assert_eq!(strip_prefix("", ""), Some(""));
    assert_eq!(strip_prefix("hell", "hello"), None);
    assert_eq!(strip_prefix("help!", "hello"), None);
    assert_eq!(strip_prefix("", "a"), None);
    assert_eq!(strip_prefix("\u{e9}a", "\u{e9}"), Some("a"));
}

#[test]
fn take_identifier_chars_appends_the_run() {
    let mut taken = String::from("x");
    assert_eq!(take_identifier_chars("ab-1 c", &mut taken), " c");
    assert_eq!(taken, "xab-1");
    let mut none = String::new();
    assert_eq!(take_identifier_chars("=b", &mut none), "=b");
    assert_eq!(none, "");
    let mut all = String::new();
    assert_eq!(take_identifier_chars("a-Z09", &mut all), "");
    assert_eq!(all, "a-Z09");
}

#[test]
fn the_letter_a_on_the_empty_input() {
    assert_eq!(the_letter_a(""), Err(""));
    assert_eq!(the_letter_a("A"), Err("A"));
}

#[test]
fn literal_longer_than_the_input_fails() {
    assert_eq!(match_literal("Joe").parse("Jo"), Err("Jo"));
    assert_eq!(match_literal("Joe").parse(""), Err(""));
    assert_eq!(match_literal("").parse("Joe"), Ok(("Joe", ())));
}

#[test]
fn any_char_takes_exactly_one_character() {
    assert_eq!(any_char("omg"), Ok(("mg", 'o')));
    assert_eq!(any_char(""), Err(""));
    assert_eq!(any_char("\u{e9}t"), Ok(("t", '\u{e9}')));
    assert_eq!(AnyChar.parse("x"), Ok(("", 'x')));
    assert_eq!(AnyChar.parse(""), Err(""));
}

#[test]
fn identifier_starts_with_an_ascii_letter() {
    assert_eq!(identifier("a1-b2 rest"), Ok((" rest", "a1-b2".to_string())));
    assert_eq!(identifier("x"), Ok(("", "x".to_string())));
    assert_eq!(identifier("Z-"), Ok(("", "Z-".to_string())));
    assert_eq!(identifier("1abc"), Err("1abc"));
    assert_eq!(identifier("-abc"), Err("-abc"));
    assert_eq!(identifier(""), Err(""));
    assert_eq!(identifier("\u{e9}a"), Err("\u{e9}a"));
    assert_eq!(identifier("a\u{e9}"), Ok(("\u{e9}", "a".to_string())));
    assert_eq!(identifier("a_b"), Ok(("_b", "a".to_string())));
    assert_eq!(Identifier.parse("ab=c"), Ok(("=c", "ab".to_string())));
    assert_eq!(Identifier.parse("=c"), Err("=c"));
}

#[test]
fn map_transforms_the_value_and_passes_failure_on() {
    let upper = xml_combinators::combinators::map(any_char, |c: char| c.to_ascii_uppercase());
    assert_eq!(upper.parse("abc"), Ok(("bc", 'A')));
    assert_eq!(upper.parse(""), Err(""));
    let length = xml_combinators::combinators::map(Identifier, |name: String| name.len());
    assert_eq!(length.parse("hello world"), Ok((" world", 5)));
    assert_eq!(length.parse("!"), Err("!"));
}

#[test]
fn pair_does_not_restore_what_its_first_parser_took() {
    let parser = pair(Identifier, match_literal("="));
    assert_eq!(parser.parse("a=b"), Ok(("b", ("a".to_string(), ()))));
    assert_eq!(parser.parse("a:b"), Err(":b"));
    assert_eq!(parser.parse("=b"), Err("=b"));
}

#[test]
fn left_and_right_keep_one_value() {
    assert_eq!(left(Identifier, match_literal("=")).parse("a=b"), Ok(("b", "a".to_string())));
    assert_eq!(left(Identifier, match_literal("=")).parse("a-b"), Err(""));
    assert_eq!(left(Identifier, match_literal("=")).parse("1=b"), Err("1=b"));
    assert_eq!(right(match_literal("<"), Identifier).parse("<a>"), Ok((">", "a".to_string())));
    assert_eq!(right(match_literal("<"), Identifier).parse("<!x"), Err("!x"));
    assert_eq!(right(match_literal("<"), Identifier).parse("a"), Err("a"));
}

#[test]
fn either_tries_its_second_parser_on_the_same_input() {
    let parser = either(
        pair(match_literal("<"), match_literal("a")),
        pair(match_literal("<"), match_literal("b")),
    );
    assert_eq!(parser.parse("<a!"), Ok(("!", ((), ()))));
    assert_eq!(parser.parse("<b!"), Ok(("!", ((), ()))));
    assert_eq!(parser.parse("<c!"), Err("c!"));
    assert_eq!(parser.parse("x"), Err("x"));
    let second_only = either(match_literal("ha"), match_literal("ho"));
    assert_eq!(second_only.parse("hoho"), match_literal("ho").parse("hoho"));
    assert_eq!(second_only.parse("hoho"), Ok(("ho", ())));
    let names = either(
        right(match_literal("<"), Identifier),
        right(match_literal("</"), Identifier),
    );
    assert_eq!(names.parse("</a>"), Ok((">", "a".to_string())));
    assert_eq!(names.parse("</1>"), Err("1>"));
}

#[test]
fn repetition_stops_at_the_first_failure() {
    let letters = zero_or_more(pred(AnyChar, NotChar(';')));
    assert_eq!(letters.parse("ab;cd"), Ok((";cd", vec!['a', 'b'])));
    assert_eq!(letters.parse(";"), Ok((";", vec![])));
    assert_eq!(letters.parse("abc"), Ok(("", vec!['a', 'b', 'c'])));
    let pairs = one_or_more(pair(Identifier, match_literal(",")));
    assert_eq!(
        pairs.parse("a,b,c"),
        Ok(("c", vec![("a".to_string(), ()), ("b".to_string(), ())]))
    );
    assert_eq!(pairs.parse("a;b"), Err("a;b"));
    assert_eq!(pairs.parse(""), Err(""));
}

#[test]
fn pred_restores_the_input_that_it_rejects() {
    let parser = pred(pair(AnyChar, AnyChar), |value: &(char, char)| value.0 == value.1);
    assert_eq!(parser.parse("aab"), Ok(("b", ('a', 'a'))));
    assert_eq!(parser.parse("abb"), Err("abb"));
    assert_eq!(parser.parse("a"), Err(""));
    assert_eq!(pred(AnyChar, NotChar('x')).parse("xy"), Err("xy"));
    assert_eq!(pred(AnyChar, NotChar('x')).parse("yx"), Ok(("x", 'y')));
    assert_eq!(pred(AnyChar, Whitespace).parse("\ta"), Ok(("a", '\t')));
    assert_eq!(pred(AnyChar, Whitespace).parse("a\t"), Err("a\t"));
}

#[test]
fn and_then_chooses_the_second_parser_by_the_first_value() {
    let parser = and_then(
        right(match_literal("<"), left(identifier, match_literal(">"))),
        |name: String| close_element(name),
    );
    assert_eq!(parser.parse("<a></a>!"), Ok(("!", "a".to_string())));
    assert_eq!(parser.parse("<a></b>"), Err("</b>"));
    assert_eq!(parser.parse("<a>"), Err(""));
    assert_eq!(parser.parse("a>"), Err("a>"));
    let repeated = and_then(any_char, |c: char| pred(any_char, move |d: &char| *d == c));
    assert_eq!(repeated.parse("aab"), Ok(("b", 'a')));
    assert_eq!(repeated.parse("abb"), Err("bb"));
    assert_eq!(repeated.parse("a"), Err(""));
}

#[test]
fn whitespace_parsers() {
    assert_eq!(whitespace_char().parse(" a"), Ok(("a", ' ')));
    assert_eq!(whitespace_char().parse("a "), Err("a "));
    assert_eq!(space1().parse(" \t\n a "), Ok(("a ", vec![' ', '\t', '\n', ' '])));
    assert_eq!(space1().parse("a"), Err("a"));
    assert_eq!(space1().parse(""), Err(""));
    assert_eq!(space0().parse("a"), Ok(("a", vec![])));
    assert_eq!(space0().parse("\u{a0}\u{3000}a"), Ok(("a", vec!['\u{a0}', '\u{3000}'])));
    assert_eq!(space0().parse(""), Ok(("", vec![])));
}

#[test]
fn whitespace_wrap_takes_whitespace_on_both_sides() {
    let parser = whitespace_wrap(Identifier);
    assert_eq!(parser.parse("  abc  rest"), Ok(("rest", "abc".to_string())));
    assert_eq!(parser.parse("abc"), Ok(("", "abc".to_string())));
    assert_eq!(parser.parse("  1  "), Err("1  "));
    assert_eq!(parser.parse("   "), Err(""));
}

#[test]
fn functions_are_parsers() {
    let parser = pair(the_letter_a, pair(any_char, identifier));
    assert_eq!(parser.parse("a-bc d"), Ok((" d", ((), ('-', "bc".to_string())))));
    assert_eq!(parser.parse("b"), Err("b"));
    assert_eq!(parser.parse("a"), Err(""));
    assert_eq!(parser.parse("a-1"), Err("1"));
}
