use ofx_transform::text::resolve_entity;
use ofx_transform::token::Token;
use ofx_transform::tokenize::tokenize;
use ofx_transform::render::render;

fn open(name: &str) -> Token {
    Token::OpenStartTag { name: name.to_string() }
}

fn ch(text: &str) -> Token {
    Token::Character { text: text.to_string() }
}

fn end(name: &str) -> Token {
    Token::EndTag { name: name.to_string() }
}

#[test]
fn plain_element() {
    let ts = tokenize("<NAME>hello</NAME>", true).unwrap();
    assert_eq!(
        ts,
        vec![open("NAME"), Token::CloseStartTag, ch("hello"), end("NAME")]
    );
}

#[test]
fn leading_header_text_is_character_data() {
    let ts = tokenize("OFXHEADER:100\n<OFX>x", true).unwrap();
    assert_eq!(
        ts,
        vec![ch("OFXHEADER:100"), open("OFX"), Token::CloseStartTag, ch("x")]
    );
}

#[test]
fn whitespace_between_tags_is_dropped() {
    let ts = tokenize("<A>\n  <B>text\n</B>\n</A>", true).unwrap();
    assert_eq!(
        ts,
        vec![
            open("A"),
            Token::CloseStartTag,
            open("B"),
            Token::CloseStartTag,
            ch("text"),
            end("B"),
            end("A")
        ]
    );
}

#[test]
fn character_data_is_trimmed() {
    let ts = tokenize("<A>  padded value  </A>", true).unwrap();
    assert_eq!(ts[2], ch("padded value"));
}

#[test]
fn entities_expand_to_their_characters() {
    let ts = tokenize("a&lt;&gt;&amp;&quot;&apos;b", true).unwrap();
    assert_eq!(ts, vec![ch("a<>&\"'b")]);
}

#[test]
fn entity_without_semicolon_expands() {
    let ts = tokenize("a&lt b", true).unwrap();
    assert_eq!(ts, vec![ch("a< b")]);
}

#[test]
fn lone_ampersand_is_literal() {
    let ts = tokenize("a & b", true).unwrap();
    assert_eq!(ts, vec![ch("a & b")]);
}

#[test]
fn unknown_entity_is_a_parse_error() {
    assert!(tokenize("a&nosuch;b", true).is_err());
}

#[test]
fn unterminated_tag_is_a_parse_error() {
    assert!(tokenize("<NAME", true).is_err());
}

#[test]
fn unterminated_end_tag_is_a_parse_error() {
    assert!(tokenize("<A>x</A", true).is_err());
}

#[test]
fn stray_less_than_is_text() {
    let ts = tokenize("a < b", true).unwrap();
    assert_eq!(ts, vec![ch("a < b")]);
}

#[test]
fn attributes_are_lexed_and_values_expanded() {
    let ts = tokenize("<A HREF=\"/x&amp;y\" CHECKED>t</A>", true).unwrap();
    assert_eq!(
        ts,
        vec![
            open("A"),
            Token::Attribute { name: "HREF".to_string(), value: Some("/x&y".to_string()) },
            Token::Attribute { name: "CHECKED".to_string(), value: None },
            Token::CloseStartTag,
            ch("t"),
            end("A")
        ]
    );
}

#[test]
fn unquoted_attribute_value() {
    let ts = tokenize("<A B=3>t</A>", true).unwrap();
    assert_eq!(
        ts[1],
        Token::Attribute { name: "B".to_string(), value: Some("3".to_string()) }
    );
}

#[test]
fn empty_element_close() {
    let ts = tokenize("<A/>", true).unwrap();
    assert_eq!(ts, vec![open("A"), Token::EmptyElementClose]);
}

#[test]
fn unterminated_quote_is_a_parse_error() {
    assert!(tokenize("<A B=\"x>t</A>", true).is_err());
}

#[test]
fn markup_declaration_is_kept() {
    let ts = tokenize("<!DOCTYPE ofx>x", true).unwrap();
    assert_eq!(
        ts,
        vec![Token::MarkupDeclaration { text: "DOCTYPE ofx".to_string() }, ch("x")]
    );
}

#[test]
fn declaration_subset_is_a_parse_error() {
    assert!(tokenize("<!DOCTYPE ofx [", true).is_err());
}

#[test]
fn comments_are_dropped() {
    let ts = tokenize("a<!-- note -->b", true).unwrap();
    assert_eq!(ts, vec![ch("a"), ch("b")]);
}

#[test]
fn processing_instruction_round_trips() {
    let ts = tokenize("<?proc?>", true).unwrap();
    assert_eq!(
        ts,
        vec![Token::ProcessingInstruction { data: "proc?".to_string() }]
    );
    assert_eq!(render(&ts), "<?proc?>");
}

#[test]
fn marked_section_expands_to_character_data() {
    let ts = tokenize("a<![CDATA[ x ]]>b", true).unwrap();
    assert_eq!(ts, vec![ch("a"), ch("x"), ch("b")]);
}

#[test]
fn ignored_marked_section_is_dropped() {
    let ts = tokenize("a<![IGNORE[secret]]>b", true).unwrap();
    assert_eq!(ts, vec![ch("a"), ch("b")]);
}

#[test]
fn marked_section_kept_opaque_without_expansion() {
    let ts = tokenize("<![CDATA[ x ]]>", false).unwrap();
    assert_eq!(
        ts,
        vec![Token::MarkedSection { keywords: "CDATA".to_string(), content: " x ".to_string() }]
    );
    assert_eq!(render(&ts), "<![CDATA[ x ]]>");
}

#[test]
fn unterminated_marked_section_is_a_parse_error() {
    assert!(tokenize("<![CDATA[x", true).is_err());
}

#[test]
fn render_escapes_character_data() {
    let ts = vec![ch("a<b&c>d")];
    assert_eq!(render(&ts), "a&lt;b&amp;c&gt;d");
}

#[test]
fn render_quotes_attribute_values() {
    let ts = vec![
        open("A"),
        Token::Attribute { name: "B".to_string(), value: Some("x\"&y".to_string()) },
        Token::CloseStartTag,
    ];
    assert_eq!(render(&ts), "<A B=\"x&quot;&amp;y\">");
}

#[test]
fn entity_table_holds_exactly_the_five_standard_names() {
    assert_eq!(resolve_entity("lt"), Some('<'));
    assert_eq!(resolve_entity("gt"), Some('>'));
    assert_eq!(resolve_entity("amp"), Some('&'));
    assert_eq!(resolve_entity("quot"), Some('"'));
    assert_eq!(resolve_entity("apos"), Some('\''));
    assert_eq!(resolve_entity("nbsp"), None);
    assert_eq!(resolve_entity(""), None);
}
