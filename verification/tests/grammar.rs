use xml_combinators::xml::{
    parse_children, parse_element, parse_element_body, parse_parent_element, ChildrenThenClose,
    CollectChars, MakeElement, NameIs, WithChildren,
};
use xml_combinators::{
    attribute_pair, attributes, close_element, element, element_parser, element_start,
    open_element, parent_element, quoted_string, single_element, zero_or_more, Chain, Element,
    Parser, Predicate, Transform,
};

fn leaf(name: &str, attributes: &[(&str, &str)]) -> Element {
    node(name, attributes, vec![])
}

fn node(name: &str, attributes: &[(&str, &str)], children: Vec<Element>) -> Element {
    Element {
        name: name.to_string(),
        attributes: attributes.iter().map(|(n, v)| (n.to_string(), v.to_string())).collect(),
        children,
    }
}

fn write(element: &Element) -> String {
    let mut text = format!("<{}", element.name);
    for (name, value) in &element.attributes {
        text.push_str(&format!(" {}=\"{}\"", name, value));
    }
    if element.children.is_empty() {
        text.push_str("/>");
    } else {
        text.push('>');
        for child in &element.children {
            text.push_str(&write(child));
        }
        text.push_str(&format!("</{}>", element.name));
    }
    text
}

#[test]
fn quoted_string_needs_both_quotes() {
    assert_eq!(quoted_string().parse("\"\""), Ok(("", String::new())));
    assert_eq!(quoted_string().parse("\"a\"b\""), Ok(("b\"", "a".to_string())));
    assert_eq!(
        quoted_string().parse("\"<a b='c'/> \u{e9}\" x"),
        Ok((" x", "<a b='c'/> \u{e9}".to_string()))
    );
    assert_eq!(quoted_string().parse("\"abc"), Err(""));
    assert_eq!(quoted_string().parse("abc\""), Err("abc\""));
    assert_eq!(quoted_string().parse(""), Err(""));
}

#[test]
fn attribute_pair_is_name_equals_string() {
    assert_eq!(
        attribute_pair().parse("one=\"1\" two"),
        Ok((" two", ("one".to_string(), "1".to_string())))
    );
    assert_eq!(attribute_pair().parse("one = \"1\""), Err(" = \"1\""));
    assert_eq!(attribute_pair().parse("one=1"), Err("1"));
    assert_eq!(attribute_pair().parse("1=\"1\""), Err("1=\"1\""));
    assert_eq!(attribute_pair().parse("one=\"1"), Err(""));
}

#[test]
fn attributes_keep_their_order_and_their_duplicates() {
    assert_eq!(
        attributes().parse(" b=\"2\"   a=\"1\"\n\tb=\"3\"/>"),
        Ok((
            "/>",
            vec![
                ("b".to_string(), "2".to_string()),
                ("a".to_string(), "1".to_string()),
                ("b".to_string(), "3".to_string()),
            ]
        ))
    );
}

#[test]
fn attributes_stop_before_whitespace_that_no_attribute_follows() {
    assert_eq!(attributes().parse(""), Ok(("", vec![])));
    assert_eq!(attributes().parse("a=\"1\""), Ok(("a=\"1\"", vec![])));
    assert_eq!(
        attributes().parse(" a=\"1\" />"),
        Ok((" />", vec![("a".to_string(), "1".to_string())]))
    );
    assert_eq!(
        attributes().parse(" a=\"1\" b=2"),
        Ok((" b=2", vec![("a".to_string(), "1".to_string())]))
    );
}

#[test]
fn element_start_is_the_name_and_the_attributes() {
    assert_eq!(
        element_start().parse("<div class=\"float\">"),
        Ok((">", ("div".to_string(), vec![("class".to_string(), "float".to_string())])))
    );
    assert_eq!(element_start().parse("<div/>"), Ok(("/>", ("div".to_string(), vec![]))));
    assert_eq!(element_start().parse("div"), Err("div"));
    assert_eq!(element_start().parse("< div"), Err(" div"));
    assert_eq!(element_start().parse("</div>"), Err("/div>"));
}

#[test]
fn single_element_ends_with_slash_and_bracket() {
    assert_eq!(single_element().parse("<a/>rest"), Ok(("rest", leaf("a", &[]))));
    assert_eq!(single_element().parse("<a>"), Err(">"));
    assert_eq!(single_element().parse("<a />"), Err(" />"));
    assert_eq!(single_element().parse("<a b=\"c\""), Err(""));
    assert_eq!(single_element().parse(" <a/>"), Err(" <a/>"));
}

#[test]
fn open_element_ends_with_a_bracket() {
    assert_eq!(
        open_element().parse("<a b=\"c\">rest"),
        Ok(("rest", leaf("a", &[("b", "c")])))
    );
    assert_eq!(open_element().parse("<a/>"), Err("/>"));
    assert_eq!(open_element().parse("</a>"), Err("/a>"));
}

#[test]
fn close_element_wants_the_expected_name() {
    assert_eq!(
        close_element("top".to_string()).parse("</top> rest"),
        Ok((" rest", "top".to_string()))
    );
    assert_eq!(close_element("top".to_string()).parse("</middle>"), Err("</middle>"));
    assert_eq!(close_element("top".to_string()).parse("</topp>"), Err("</topp>"));
    assert_eq!(close_element("top".to_string()).parse("</top"), Err(""));
    assert_eq!(close_element("top".to_string()).parse("</top >"), Err(" >"));
    assert_eq!(close_element("top".to_string()).parse("<top>"), Err("<top>"));
    assert_eq!(close_element("top".to_string()).parse("</1>"), Err("1>"));
}

#[test]
fn parent_element_holds_its_children_in_order() {
    assert_eq!(parent_element().parse("<a></a>"), Ok(("", leaf("a", &[]))));
    assert_eq!(
        parent_element().parse("<a x=\"1\"><b/><c/><b/></a>!"),
        Ok((
            "!",
            node("a", &[("x", "1")], vec![leaf("b", &[]), leaf("c", &[]), leaf("b", &[])])
        ))
    );
    assert_eq!(parent_element().parse("<a/>"), Err("/>"));
    assert_eq!(parent_element().parse("<a><b/>"), Err(""));
    assert_eq!(parent_element().parse("<a> </a>"), Err(" </a>"));
    assert_eq!(parent_element().parse(" <a></a>"), Err(" <a></a>"));
    assert_eq!(
        parse_parent_element("<a><b></b></a>"),
        Ok(("", node("a", &[], vec![leaf("b", &[])])))
    );
}

#[test]
fn children_are_parsed_until_one_fails() {
    let mut children = vec![leaf("first", &[])];
    assert_eq!(parse_children(" <a/> <b></b></c>", &mut children), "</c>");
    assert_eq!(children, vec![leaf("first", &[]), leaf("a", &[]), leaf("b", &[])]);
    let mut none = Vec::new();
    assert_eq!(parse_children("text", &mut none), "text");
    assert_eq!(none, vec![]);
}

#[test]
fn the_body_of_an_element_is_its_children_and_its_closing_tag() {
    assert_eq!(
        parse_element_body(leaf("a", &[("x", "1")]), "<b/> <c/></a> rest"),
        Ok((" rest", node("a", &[("x", "1")], vec![leaf("b", &[]), leaf("c", &[])])))
    );
    assert_eq!(parse_element_body(leaf("a", &[]), "</a>"), Ok(("", leaf("a", &[]))));
    assert_eq!(parse_element_body(leaf("a", &[]), "<b/></c>"), Err("</c>"));
    let body = ChildrenThenClose.next(leaf("a", &[("x", "1")]));
    assert_eq!(
        body.parse("<b/></a>"),
        Ok(("", node("a", &[("x", "1")], vec![leaf("b", &[])])))
    );
    assert_eq!(body.parse("<b/></b>"), Err("</b>"));
}

#[test]
fn the_element_parser_as_a_value_parses_what_element_parses() {
    let texts = ["<a/>", " <a><b/></a> x", "<a></b>", "", "<a b=\"1\" c=\"2\"><d e=\"3\"/></a>"];
    for text in texts {
        assert_eq!(element_parser().parse(text), element().parse(text), "{}", text);
        assert_eq!(parse_element(text), element().parse(text), "{}", text);
    }
    assert_eq!(
        zero_or_more(element_parser()).parse("<a/> <b/>c"),
        Ok(("c", vec![leaf("a", &[]), leaf("b", &[])]))
    );
}

#[test]
fn the_functions_of_the_grammar() {
    assert_eq!(CollectChars.apply(vec!['a', '\u{e9}', 'b']), "a\u{e9}b".to_string());
    assert_eq!(CollectChars.apply(vec![]), String::new());
    assert_eq!(
        MakeElement.apply(("a".to_string(), vec![("b".to_string(), "c".to_string())])),
        leaf("a", &[("b", "c")])
    );
    assert_eq!(
        WithChildren(leaf("a", &[("b", "c")])).apply(vec![leaf("d", &[])]),
        node("a", &[("b", "c")], vec![leaf("d", &[])])
    );
    assert!(NameIs("top".to_string()).test(&"top".to_string()));
    assert!(!NameIs("top".to_string()).test(&"Top".to_string()));
    assert!(!NameIs("top".to_string()).test(&"to".to_string()));
}

#[test]
fn mismatched_closing_tag_without_whitespace() {
    assert_eq!(element().parse("<top><bottom/></middle>"), Err("</middle>"));
}

#[test]
fn mismatched_closing_tag_of_a_nested_element() {
    assert_eq!(element().parse("<a><b><c/></a></b>"), Err("<b><c/></a></b>"));
    assert_eq!(parent_element().parse("<b><c/></a></b>"), Err("</a></b>"));
    assert_eq!(element().parse("<a><b></b>"), Err(""));
    assert_eq!(element().parse("</a>"), Err("/a>"));
    assert_eq!(element().parse(""), Err(""));
    assert_eq!(element().parse("text"), Err("text"));
}

#[test]
fn self_closing_element_has_no_children() {
    assert_eq!(
        element().parse("<div class=\"float\"/>"),
        Ok(("", leaf("div", &[("class", "float")])))
    );
}

#[test]
fn single_elements_parse_back_from_their_text() {
    let cases = vec![
        leaf("a", &[]),
        leaf("div", &[("class", "float")]),
        leaf("my-first-element", &[("one", "1"), ("two", "2"), ("one", "again")]),
        leaf("x9", &[("data-x", ""), ("b", "a < b > c / ' = \u{e9}\n")]),
    ];
    for case in cases {
        let text = write(&case);
        assert_eq!(element().parse(&text), Ok(("", case.clone())), "{}", text);
    }
    assert_eq!(write(&leaf("div", &[("class", "float")])), "<div class=\"float\"/>");
}

#[test]
fn nested_documents_parse_back_to_their_tree() {
    let tree = node(
        "top",
        &[("label", "Top")],
        vec![
            leaf("semi-bottom", &[("label", "Bottom")]),
            node(
                "middle",
                &[],
                vec![node("inner", &[("a", "1")], vec![leaf("bottom", &[]), leaf("bottom", &[])])],
            ),
            leaf("last", &[]),
        ],
    );
    let text = write(&tree);
    assert_eq!(
        text,
        "<top label=\"Top\"><semi-bottom label=\"Bottom\"/><middle><inner a=\"1\"><bottom/>\
         <bottom/></inner></middle><last/></top>"
    );
    assert_eq!(element().parse(&text), Ok(("", tree.clone())));
    assert_eq!(parse_element(&text), Ok(("", tree)));
}

#[test]
fn whitespace_around_a_document_does_not_change_the_element() {
    let plain = element().parse("<a b=\"1\"><c/></a>");
    assert_eq!(plain, Ok(("", node("a", &[("b", "1")], vec![leaf("c", &[])]))));
    assert_eq!(element().parse("  \n\t<a b=\"1\"><c/></a>"), plain);
    assert_eq!(element().parse("<a b=\"1\"><c/></a> \n "), plain);
    assert_eq!(element().parse(" <a b=\"1\"> <c/> </a> "), plain);
    assert_eq!(element().parse("<a \n\t  b=\"1\"><c/></a>"), plain);
    assert_eq!(element().parse(" <a/> x "), Ok(("x ", leaf("a", &[]))));
    assert_eq!(element().parse("   text"), Err("text"));
}

#[test]
fn whitespace_between_attributes_does_not_change_them() {
    let expected = Ok(("", leaf("a", &[("b", "1"), ("c", "2")])));
    assert_eq!(element().parse("<a b=\"1\" c=\"2\"/>"), expected);
    assert_eq!(element().parse("<a  b=\"1\"\n\n\tc=\"2\"/>"), expected);
    assert_eq!(element().parse("<a\u{a0}b=\"1\"\u{2003}c=\"2\"/>"), expected);
}

#[test]
fn the_input_left_parses_as_a_new_input_does() {
    let first = element().parse("<a/><b x=\"1\"/> <c>");
    assert_eq!(first, Ok(("<b x=\"1\"/> <c>", leaf("a", &[]))));
    let rest = first.unwrap().0;
    let second = element().parse(rest);
    assert_eq!(second, element().parse("<b x=\"1\"/> <c>"));
    assert_eq!(second, Ok(("<c>", leaf("b", &[("x", "1")]))));
    let third = element().parse(second.unwrap().0);
    assert_eq!(third, element().parse("<c>"));
    assert_eq!(third, Err(""));
    assert_eq!(element().parse("<a/><b x=\"1\"/> <c>"), Ok(("<b x=\"1\"/> <c>", leaf("a", &[]))));
}

#[test]
fn clone_copies_the_whole_tree() {
    let tree = node(
        "a",
        &[("b", "1")],
        vec![leaf("c", &[("d", "2")]), node("e", &[], vec![leaf("f", &[])])],
    );
    let copy = tree.clone();
    assert_eq!(copy, tree);
    assert_eq!(copy.children[1].children[0].name, "f");
}
