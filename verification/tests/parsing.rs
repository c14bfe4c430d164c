use confignode::error::{ParseError, ParseErrorKind};
use confignode::{ConfigNode, ConfigNodeParser, ConfigNodeValue};

fn node_of(children: Vec<(&str, ConfigNodeValue)>) -> ConfigNode {
    let mut node = ConfigNode::new();
    for (key, value) in children {
        node.insert(key.to_owned(), value);
    }
    node
}

fn text(value: &str) -> ConfigNodeValue {
    ConfigNodeValue::Text(value.to_owned())
}

fn eof() -> Result<ConfigNode, ParseError> {
    Err(ParseError {
        kind: ParseErrorKind::UnexpectedEof,
    })
}

fn invalid() -> Result<ConfigNode, ParseError> {
    Err(ParseError {
        kind: ParseErrorKind::InvalidCharacter,
    })
}

#[test]
fn comments() {
    assert_eq!(
        ConfigNodeParser::parse(
            "
            // test
            ABC = DEF"
        ),
        Ok(node_of(vec![(
            "ABC",
            ConfigNodeValue::Text("DEF".to_owned())
        )]))
    );

    assert_eq!(
        ConfigNodeParser::parse(
            "
            ABC = DE//F"
        ),
        Ok(node_of(vec![(
            "ABC",
            ConfigNodeValue::Text("DE".to_owned())
        )]))
    );

    assert_eq!(
        ConfigNodeParser::parse("A/B/C =/ DE/F//G"),
        Ok(node_of(vec![(
            "A/B/C",
            ConfigNodeValue::Text("/ DE/F".to_owned())
        )]))
    );

    assert_eq!(
        ConfigNodeParser::parse(
            "GAME//test
            {
                Title = Career (CAREER)
            }"
        ),
        Ok(node_of(vec![(
            "GAME",
            ConfigNodeValue::Node(node_of(vec![(
                "Title",
                ConfigNodeValue::Text("Career (CAREER)".to_owned())
            )]))
        )]))
    );
}

#[test]
fn empty() {
    assert_eq!(ConfigNodeParser::parse(""), Ok(ConfigNode::new()));
}

#[test]
fn special_characters() {
    assert_eq!(
        ConfigNodeParser::parse(
            "!!@(#@/
            {
                +-\\() = \\=/-$(!)
            }"
        ),
        Ok(node_of(vec![(
            "!!@(#@/",
            ConfigNodeValue::Node(node_of(vec![(
                "+-\\()",
                ConfigNodeValue::Text("\\=/-$(!)".to_owned())
            )]))
        )]))
    );
}

#[test]
fn whitespace_only_is_an_empty_node() {
    for input in ["", " ", "\n", "\t", "\r\n", "\x0C", "  \t\r\n\x0C  \n\n "] {
        let node = ConfigNodeParser::parse(input).unwrap();
        assert!(node.is_empty());
        assert_eq!(node.len(), 0);
        assert_eq!(node, ConfigNode::new());
    }
}

#[test]
fn line_comment_before_an_entry_is_discarded() {
    assert_eq!(
        ConfigNodeParser::parse("\n// test\nABC = DEF"),
        Ok(node_of(vec![("ABC", text("DEF"))]))
    );
    assert_eq!(
        ConfigNodeParser::parse("// one\n  // two\r\n//\nABC = DEF\n// three"),
        ConfigNodeParser::parse("ABC = DEF")
    );
}

#[test]
fn comment_alone_is_an_empty_node() {
    assert_eq!(ConfigNodeParser::parse("// nothing else"), Ok(ConfigNode::new()));
    assert_eq!(ConfigNodeParser::parse("//"), Ok(ConfigNode::new()));
    assert_eq!(ConfigNodeParser::parse("  //\n"), Ok(ConfigNode::new()));
}

#[test]
fn inline_comment_truncates_a_value() {
    assert_eq!(
        ConfigNodeParser::parse("ABC = DE//F"),
        Ok(node_of(vec![("ABC", text("DE"))]))
    );
    assert_eq!(
        ConfigNodeParser::parse("ABC = DE  // F = G\nH = I"),
        Ok(node_of(vec![("ABC", text("DE")), ("H", text("I"))]))
    );
    assert_eq!(
        ConfigNodeParser::parse("ABC =// all of it\n"),
        Ok(node_of(vec![("ABC", text(""))]))
    );
}

#[test]
fn single_slash_is_a_literal_character() {
    assert_eq!(
        ConfigNodeParser::parse("A/B/C =/ DE/F//G"),
        Ok(node_of(vec![("A/B/C", text("/ DE/F"))]))
    );
    assert_eq!(
        ConfigNodeParser::parse("a = b/"),
        Ok(node_of(vec![("a", text("b/"))]))
    );
    assert_eq!(
        ConfigNodeParser::parse("a/ = /"),
        Ok(node_of(vec![("a/", text("/"))]))
    );
}

#[test]
fn leading_slash_belongs_to_the_identifier() {
    assert_eq!(
        ConfigNodeParser::parse("/abc = 1"),
        Ok(node_of(vec![("/abc", text("1"))]))
    );
    assert_eq!(
        ConfigNodeParser::parse("/ abc = 1"),
        Ok(node_of(vec![("/abc", text("1"))]))
    );
    assert_eq!(
        ConfigNodeParser::parse("/= 1"),
        Ok(node_of(vec![("/", text("1"))]))
    );
    assert_eq!(
        ConfigNodeParser::parse("/{}"),
        Ok(node_of(vec![("/", ConfigNodeValue::Node(ConfigNode::new()))]))
    );
    assert_eq!(ConfigNodeParser::parse("/"), eof());
    assert_eq!(ConfigNodeParser::parse("/}"), invalid());
}

#[test]
fn trailing_comment_on_the_line_of_a_node_identifier() {
    assert_eq!(
        ConfigNodeParser::parse("GAME//test\n{\nTitle = Career (CAREER)\n}"),
        Ok(node_of(vec![(
            "GAME",
            ConfigNodeValue::Node(node_of(vec![("Title", text("Career (CAREER)"))]))
        )]))
    );
    assert_eq!(
        ConfigNodeParser::parse("GAME // {\n{\n}"),
        Ok(node_of(vec![("GAME", ConfigNodeValue::Node(ConfigNode::new()))]))
    );
    assert_eq!(
        ConfigNodeParser::parse("key // comment\n = value"),
        Ok(node_of(vec![("key", text("value"))]))
    );
}

#[test]
fn punctuation_is_legal_in_identifiers_and_values() {
    assert_eq!(
        ConfigNodeParser::parse("!!@(#@/\n{\n+-\\() = \\=/-$(!)\n}"),
        Ok(node_of(vec![(
            "!!@(#@/",
            ConfigNodeValue::Node(node_of(vec![("+-\\()", text("\\=/-$(!)"))]))
        )]))
    );
    assert_eq!(
        ConfigNodeParser::parse("a.b,c;d:e = [1, 2] {x} = }y{"),
        Ok(node_of(vec![("a.b,c;d:e", text("[1, 2] {x} = }y{"))]))
    );
}

#[test]
fn later_entry_replaces_earlier_one() {
    let node = ConfigNodeParser::parse("a = 1\nb = 2\na = 3").unwrap();
    assert_eq!(node.len(), 2);
    assert_eq!(node.get("a"), Some(&text("3")));
    assert_eq!(node.get("b"), Some(&text("2")));
    assert_eq!(node, node_of(vec![("b", text("2")), ("a", text("3"))]));

    let node = ConfigNodeParser::parse("a = 1\na\n{\n x = y\n}").unwrap();
    assert_eq!(node.len(), 1);
    assert_eq!(
        node.get("a"),
        Some(&ConfigNodeValue::Node(node_of(vec![("x", text("y"))])))
    );

    let node = ConfigNodeParser::parse("a\n{\n x = y\n}\na = 1").unwrap();
    assert_eq!(node, node_of(vec![("a", text("1"))]));

    let node = ConfigNodeParser::parse("n { k = 1\n k = 2\n }\nn { k = 3\n k = 4\n }").unwrap();
    assert_eq!(
        node,
        node_of(vec![(
            "n",
            ConfigNodeValue::Node(node_of(vec![("k", text("4"))]))
        )])
    );
}

#[test]
fn unterminated_node_is_unexpected_eof() {
    assert_eq!(ConfigNodeParser::parse("GAME\n{\n  Title = x\n"), eof());
    assert_eq!(ConfigNodeParser::parse("GAME {"), eof());
    assert_eq!(ConfigNodeParser::parse("GAME {   \n\n"), eof());
    assert_eq!(ConfigNodeParser::parse("a { b { c = d\n }"), eof());
    assert_eq!(ConfigNodeParser::parse("a { b = c"), eof());
    assert_eq!(ConfigNodeParser::parse("a { // }"), eof());
}

#[test]
fn closing_brace_in_an_identifier_is_invalid() {
    assert_eq!(ConfigNodeParser::parse("ab}c = 1"), invalid());
    assert_eq!(ConfigNodeParser::parse("ab} = 1"), invalid());
    assert_eq!(ConfigNodeParser::parse("a }"), invalid());
    assert_eq!(ConfigNodeParser::parse("n {\n key} = 1\n}"), invalid());
}

#[test]
fn other_character_after_a_key_is_invalid() {
    assert_eq!(ConfigNodeParser::parse("abc\ndef = 1"), invalid());
    assert_eq!(ConfigNodeParser::parse("abc\r\n}"), invalid());
    assert_eq!(ConfigNodeParser::parse("abc // comment\n/ = 1"), invalid());
    assert_eq!(ConfigNodeParser::parse("n {\n abc\n def = 1\n}"), invalid());
}

#[test]
fn end_of_input_in_or_after_an_identifier_is_unexpected_eof() {
    assert_eq!(ConfigNodeParser::parse("abc"), eof());
    assert_eq!(ConfigNodeParser::parse("abc   "), eof());
    assert_eq!(ConfigNodeParser::parse("abc\n"), eof());
    assert_eq!(ConfigNodeParser::parse("abc // comment"), eof());
    assert_eq!(ConfigNodeParser::parse("a = 1\nabc"), eof());
}

#[test]
fn value_may_be_empty_or_end_with_the_input() {
    assert_eq!(
        ConfigNodeParser::parse("a ="),
        Ok(node_of(vec![("a", text(""))]))
    );
    assert_eq!(
        ConfigNodeParser::parse("a =   \nb = \r\nc=x"),
        Ok(node_of(vec![
            ("a", text("")),
            ("b", text("")),
            ("c", text("x"))
        ]))
    );
}

#[test]
fn identifiers_and_values_are_trimmed() {
    assert_eq!(
        ConfigNodeParser::parse(" \t key with spaces \t =  \t value with spaces \x0C \r\n"),
        Ok(node_of(vec![("key with spaces", text("value with spaces"))]))
    );
    assert_eq!(
        ConfigNodeParser::parse("name\t{ }"),
        Ok(node_of(vec![("name", ConfigNodeValue::Node(ConfigNode::new()))]))
    );
}

#[test]
fn only_ascii_whitespace_is_trimmed() {
    assert_eq!(
        ConfigNodeParser::parse("a\u{a0} = \u{2003}b\u{b}"),
        Ok(node_of(vec![("a\u{a0}", text("\u{2003}b\u{b}"))]))
    );
    assert_eq!(
        ConfigNodeParser::parse("\u{a0} = 1"),
        Ok(node_of(vec![("\u{a0}", text("1"))]))
    );
}

#[test]
fn identifier_may_be_empty() {
    assert_eq!(
        ConfigNodeParser::parse("= x"),
        Ok(node_of(vec![("", text("x"))]))
    );
    assert_eq!(
        ConfigNodeParser::parse("{ a = b\n }"),
        Ok(node_of(vec![(
            "",
            ConfigNodeValue::Node(node_of(vec![("a", text("b"))]))
        )]))
    );
}

#[test]
fn closing_brace_at_the_root_ends_the_tree() {
    assert_eq!(ConfigNodeParser::parse("}"), Ok(ConfigNode::new()));
    assert_eq!(
        ConfigNodeParser::parse("a = 1\n}\nb = 2\n{{{"),
        Ok(node_of(vec![("a", text("1"))]))
    );
    assert_eq!(
        ConfigNodeParser::parse("n { }\n } x } y"),
        Ok(node_of(vec![("n", ConfigNodeValue::Node(ConfigNode::new()))]))
    );
}

#[test]
fn nested_nodes() {
    let input = "GAME\n{\n\tversion = 1.12.5\n\tPARAMETERS\n\t{\n\t\tFLIGHT\n\t\t{\n\
                 \t\t\tCanQuickSave = True\n\t\t}\n\t\tpreset = Normal\n\t}\n\
                 \tTitle = Career (CAREER)\n}\n";
    let flight = node_of(vec![("CanQuickSave", text("True"))]);
    let parameters = node_of(vec![
        ("FLIGHT", ConfigNodeValue::Node(flight)),
        ("preset", text("Normal")),
    ]);
    let game = node_of(vec![
        ("version", text("1.12.5")),
        ("PARAMETERS", ConfigNodeValue::Node(parameters)),
        ("Title", text("Career (CAREER)")),
    ]);
    let root = node_of(vec![("GAME", ConfigNodeValue::Node(game))]);
    assert_eq!(ConfigNodeParser::parse(input), Ok(root));
}

#[test]
fn entries_on_one_line_with_braces() {
    assert_eq!(
        ConfigNodeParser::parse("a{b{c=d\n}e=f\n}"),
        Ok(node_of(vec![(
            "a",
            ConfigNodeValue::Node(node_of(vec![
                ("b", ConfigNodeValue::Node(node_of(vec![("c", text("d"))]))),
                ("e", text("f")),
            ]))
        )]))
    );
    assert_eq!(
        ConfigNodeParser::parse("a { b = c }"),
        eof()
    );
}

#[test]
fn carriage_return_ends_a_line() {
    assert_eq!(
        ConfigNodeParser::parse("a = 1\r\nb = 2\rc = 3\r\n"),
        Ok(node_of(vec![
            ("a", text("1")),
            ("b", text("2")),
            ("c", text("3"))
        ]))
    );
    assert_eq!(
        ConfigNodeParser::parse("a = 1 // comment \r b = 2\nc = 3"),
        Ok(node_of(vec![("a", text("1")), ("c", text("3"))]))
    );
}

#[test]
fn the_first_error_is_reported() {
    assert_eq!(ConfigNodeParser::parse("a}b = 1\nc"), invalid());
    assert_eq!(ConfigNodeParser::parse("a = 1\nb\nc}"), invalid());
    assert_eq!(ConfigNodeParser::parse("n { m { x} } }"), invalid());
    assert_eq!(ConfigNodeParser::parse("n { m { x"), eof());
}

#[test]
fn text_beyond_ascii() {
    assert_eq!(
        ConfigNodeParser::parse("名前 = Jebediah Kerman \u{1F680}\nžluťoučký\n{\n}"),
        Ok(node_of(vec![
            ("名前", text("Jebediah Kerman \u{1F680}")),
            ("žluťoučký", ConfigNodeValue::Node(ConfigNode::new())),
        ]))
    );
}

#[test]
fn deeply_nested_nodes() {
    let depth = 500;
    let mut input = String::new();
    for _ in 0..depth {
        input.push_str("n\n{\n");
    }
    input.push_str("leaf = here\n");
    for _ in 0..depth {
        input.push_str("}\n");
    }
    let root = ConfigNodeParser::parse(&input).unwrap();
    let mut node = &root;
    for _ in 0..depth {
        assert_eq!(node.len(), 1);
        node = node.get("n").unwrap().as_node().unwrap();
    }
    assert_eq!(node.get("leaf").unwrap().as_text(), Some("here"));

    input.pop();
    input.pop();
    assert_eq!(ConfigNodeParser::parse(&input), eof());
}

#[test]
fn many_entries() {
    let mut input = String::new();
    for i in 0..20_000 {
        input.push_str(&format!("key{} = value{} // entry {}\n", i % 100, i, i));
    }
    let node = ConfigNodeParser::parse(&input).unwrap();
    assert_eq!(node.len(), 100);
    for k in 0..100 {
        assert_eq!(
            node.get(&format!("key{}", k)).unwrap().as_text().unwrap(),
            format!("value{}", 19_900 + k)
        );
    }
}
