//! A small parser-combinator engine and, built on it, a parser for a subset of
//! XML: elements with quoted attributes and nested children.

pub mod combinators;
pub mod element;
pub mod grammar;
pub mod parser;
pub mod render;
pub mod round_trip;
pub mod spacing;
pub mod text;
pub mod wellformed;
pub mod whitespace;
pub mod xml;

pub use crate::combinators::{
    and_then, either, left, one_or_more, pair, pred, right, zero_or_more, AndThen, Chain, Either,
    Left, Mapped, NotChar, OneOrMore, Pair, Pred, Predicate, Right, Transform, ZeroOrMore,
};
pub use crate::element::Element;
pub use crate::parser::{
    any_char, identifier, match_literal, the_letter_a, AnyChar, Identifier, MatchLiteral,
    ParseResult, Parser,
};
pub use crate::whitespace::{space0, space1, whitespace_char, whitespace_wrap, Whitespace};
pub use crate::xml::{
    attribute_pair, attributes, close_element, element, element_start, open_element,
    element_parser, parent_element, quoted_string, single_element, ElementParser,
};
