use htmldom_read::normalize::normalize_text;
use htmldom_read::normalize::trim_end;
use htmldom_read::normalize::trim_start;
use htmldom_read::token::decode_attributes;
use htmldom_read::token::tokenize;
use htmldom_read::tokenizer::read_events;
use htmldom_read::LoadError;
use htmldom_read::LoadSettings;
use htmldom_read::Node;
use htmldom_read::RawEvent;
use htmldom_read::Token;

fn bytes(s: &str) -> Vec<u8> {
    s.as_bytes().to_vec()
}

fn normalized(s: &str) -> String {
    String::from_utf8(normalize_text(&bytes(s))).unwrap()
}

fn start(name: &str) -> Token {
    Token::Start { name: String::from(name), attrs: Vec::new() }
}

fn end(name: &str) -> Token {
    Token::End { name: String::from(name) }
}

fn text(s: &str) -> Token {
    Token::Text { text: String::from(s) }
}

#[test]
fn text_that_begins_with_a_line_break_loses_its_leading_blanks() {
    assert_eq!("Some  ", normalized("\n  Some  "));
    assert_eq!("a", normalized("\n\n\t a"));
    assert_eq!("a b", normalized("\na b"));
}

#[test]
fn text_that_begins_with_a_space_is_kept_unless_all_of_it_is_blank() {
    assert_eq!(" more text", normalized(" more text"));
    assert_eq!("\tx", normalized("\tx"));
    assert_eq!("", normalized("   "));
    assert_eq!("", normalized(" \t \n "));
    assert_eq!("", normalized("\t"));
}

#[test]
fn text_with_a_line_break_loses_its_trailing_blanks() {
    assert_eq!("Some text", normalized("Some text\n            "));
    assert_eq!("a\nb", normalized("a\nb \t\n"));
    assert_eq!(" a", normalized(" a\n"));
}

#[test]
fn text_without_a_line_break_keeps_its_trailing_blanks() {
    assert_eq!("Text ", normalized("Text "));
    assert_eq!("a \t", normalized("a \t"));
    assert_eq!("", normalized(""));
}

#[test]
fn only_spaces_tabs_and_line_breaks_are_trimmed() {
    assert_eq!("\r\n a\r", normalized("\r\n a\r\n"));
    assert_eq!("\u{a0}a", normalized("\n\u{a0}a"));
}

#[test]
fn the_end_is_trimmed_after_the_start() {
    // Once the leading line break is gone no line break is left, and the
    // trailing spaces stay.
    assert_eq!("x  ", normalized("\nx  "));
    assert_eq!(bytes("x  "), trim_end(&trim_start(&bytes("\nx  "))));
    assert_eq!(bytes("x"), trim_end(&bytes("\nx  "))[1..].to_vec());
    assert_eq!(bytes("  x\n"), trim_start(&bytes("  x\n")));
}

#[test]
fn events_are_read_in_document_order() {
    let events = read_events("<a href='x'>t</a><br/><!-- c -->").unwrap();
    let text = |bytes: &Vec<u8>| String::from_utf8(bytes.clone()).unwrap();
    let mut seen = Vec::new();
    for event in &events {
        match event {
            RawEvent::Start { name, raw } => {
                seen.push(format!("start {} [{}]", text(name), text(raw)))
            }
            RawEvent::End { name } => seen.push(format!("end {}", text(name))),
            RawEvent::Empty { name } => seen.push(format!("empty {}", text(name))),
            RawEvent::Text { bytes } => {
                if !bytes.is_empty() {
                    seen.push(format!("text {}", text(bytes)))
                }
            }
            RawEvent::Other => seen.push(String::from("other")),
            RawEvent::Eof => seen.push(String::from("eof")),
        }
    }
    assert_eq!(
        vec![
            String::from("start a [a href='x']"),
            String::from("text t"),
            String::from("end a"),
            String::from("empty br"),
        ],
        seen
    );
}

#[test]
fn reading_stops_at_malformed_markup() {
    match read_events("<a><!b>") {
        Err(LoadError::Malformed(_)) => {}
        other => panic!("{:?}", other),
    }
}

#[test]
fn events_become_tokens() {
    let events = vec![
        RawEvent::Text { bytes: bytes("  \n ") },
        RawEvent::Start { name: bytes("a"), raw: bytes("a href='x y' id=\"z\"") },
        RawEvent::Text { bytes: bytes("\n  t \n") },
        RawEvent::Other,
        RawEvent::End { name: bytes("a") },
        RawEvent::Empty { name: bytes("br") },
    ];
    let tokens = tokenize(&events).unwrap();
    assert_eq!(4, tokens.len());
    match &tokens[0] {
        Token::Start { name, attrs } => {
            assert_eq!("a", name);
            assert_eq!(
                &vec![
                    (String::from("href"), String::from("x y")),
                    (String::from("id"), String::from("z")),
                ],
                attrs
            );
        }
        other => panic!("{:?}", other),
    }
    assert!(matches!(&tokens[1], Token::Text { text } if text == "t"));
    assert!(matches!(&tokens[2], Token::End { name } if name == "a"));
    assert!(matches!(&tokens[3], Token::Empty { name } if name == "br"));
}

#[test]
fn bytes_that_are_not_utf8_are_an_error() {
    assert!(matches!(Token::end(&vec![0xff, 0xfe]), Err(LoadError::NotUtf8(_))));
    assert!(matches!(Token::empty(&vec![0xc3]), Err(LoadError::NotUtf8(_))));
    assert!(matches!(Token::text(&vec![b'a', 0x80]), Err(LoadError::NotUtf8(_))));
    assert!(matches!(Token::start(&vec![0xff], &Vec::new()), Err(LoadError::NotUtf8(_))));
    let pairs = vec![Some((bytes("k"), vec![0xff]))];
    assert!(matches!(Token::start(&bytes("a"), &pairs), Err(LoadError::NotUtf8(_))));
    assert!(matches!(decode_attributes(&pairs), Err(LoadError::NotUtf8(_))));
    let events = vec![RawEvent::Text { bytes: bytes("ok") }, RawEvent::End { name: vec![0xff] }];
    assert!(matches!(tokenize(&events), Err(LoadError::NotUtf8(_))));
}

#[test]
fn bytes_are_decoded_as_utf8() {
    match Token::text(&bytes("gr\u{fc}n \u{4e16}")).unwrap() {
        Some(Token::Text { text }) => assert_eq!("gr\u{fc}n \u{4e16}", text),
        other => panic!("{:?}", other),
    }
    assert!(Token::text(&bytes(" \n")).unwrap().is_none());
}

#[test]
fn attributes_that_could_not_be_read_are_left_out() {
    let pairs = vec![Some((bytes("a"), bytes("1"))), None, Some((bytes("b"), bytes("2 3")))];
    let attrs = decode_attributes(&pairs).unwrap();
    assert_eq!(
        vec![(String::from("a"), String::from("1")), (String::from("b"), String::from("2 3"))],
        attrs
    );
}

#[test]
fn no_tokens_no_tree() {
    assert!(Node::from_tokens(&Vec::new(), &LoadSettings::new()).is_none());
    assert!(Node::from_tokens(&vec![end("p")], &LoadSettings::new()).is_none());
}

#[test]
fn tokens_are_built_into_a_tree() {
    let tokens = vec![
        Token::Start {
            name: String::from("p"),
            attrs: vec![(String::from("class"), String::from("a  b"))],
        },
        text("hello"),
        Token::Empty { name: String::from("br") },
        end("p"),
        text("tail"),
    ];
    let root = Node::from_tokens(&tokens, &LoadSettings::new()).unwrap();
    assert_eq!(2, root.children().len());
    let p = root.children().get(0).unwrap();
    assert_eq!(Some("p"), p.tag_name());
    assert_eq!(Some("p"), p.end());
    assert_eq!(None, p.text());
    assert_eq!(
        &vec![String::from("a"), String::from("b")],
        p.attribute_by_name("class").unwrap().values()
    );
    assert_eq!(2, p.children().len());
    assert_eq!(Some("hello"), p.children().get(0).unwrap().text());
    assert_eq!(Some("br"), p.children().get(1).unwrap().tag_name());
    assert_eq!(Some("tail"), root.children().get(1).unwrap().text());
    assert_eq!("<p class=\"a b\">hello<br/></p>tail", root.to_html());
}

#[test]
fn reading_stops_at_a_closing_tag_that_nothing_opened() {
    let tokens = vec![start("a"), end("a"), end("b"), start("c"), end("c")];
    let root = Node::from_tokens(&tokens, &LoadSettings::new()).unwrap();
    assert_eq!(1, root.children().len());
    assert_eq!("<a></a>", root.to_html());
}

#[test]
fn the_name_of_a_tag_is_its_first_word() {
    let tokens = vec![start("  p  q "), end("p")];
    let root = Node::from_tokens(&tokens, &LoadSettings::new()).unwrap();
    let p = root.children().get(0).unwrap();
    assert_eq!(Some("p"), p.tag_name());
    assert_eq!(Some("p"), p.end());

    let tokens = vec![start(""), Token::Empty { name: String::from(" ") }];
    let root = Node::from_tokens(&tokens, &LoadSettings::new()).unwrap();
    let nameless = root.children().get(0).unwrap();
    assert_eq!(Some(""), nameless.tag_name());
    assert_eq!(Some(""), nameless.children().get(0).unwrap().tag_name());
}

#[test]
fn text_behind_an_opening_tag_is_placed_by_the_settings() {
    let tokens = vec![start("p"), text("t"), end("p")];
    let apart = Node::from_tokens(&tokens, &LoadSettings::new()).unwrap();
    let p = apart.children().get(0).unwrap();
    assert_eq!(None, p.text());
    assert_eq!(Some("t"), p.children().get(0).unwrap().text());

    let settings = LoadSettings::new().all_text_separately(false);
    let inside = Node::from_tokens(&tokens, &settings).unwrap();
    let p = inside.children().get(0).unwrap();
    assert_eq!(Some("t"), p.text());
    assert_eq!(0, p.children().len());

    let tokens = vec![start("p"), text("t"), start("b"), end("b"), end("p")];
    let mixed = Node::from_tokens(&tokens, &settings).unwrap();
    let p = mixed.children().get(0).unwrap();
    assert_eq!(None, p.text());
    assert_eq!(2, p.children().len());
    assert_eq!(Some("t"), p.children().get(0).unwrap().text());
    assert_eq!(Some("b"), p.children().get(1).unwrap().tag_name());
}
