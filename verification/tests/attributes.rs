use htmldom_read::text::first_word_of;
use htmldom_read::text::is_single_word;
use htmldom_read::text::join_with_spaces;
use htmldom_read::text::split_words;
use htmldom_read::Attribute;
use htmldom_read::LoadSettings;
use htmldom_read::Node;

fn strings(words: &[&str]) -> Vec<String> {
    words.iter().map(|w| String::from(*w)).collect()
}

fn element(html: &str) -> Node {
    let mut root = Node::from_html(html, &LoadSettings::new()).unwrap().unwrap();
    let child = root.children_mut().remove(0);
    match child {
        htmldom_read::NodeAccess::Owned(node) => node,
        htmldom_read::NodeAccess::Sharable(node) => (*node).clone(),
    }
}

#[test]
fn words_are_split_at_white_space() {
    assert_eq!(strings(&["a", "b", "c"]), split_words("a b  c"));
    assert_eq!(strings(&["a", "b"]), split_words("  a\t\r\nb \n"));
    assert_eq!(strings(&["a\u{e9}", "b"]), split_words("a\u{e9}\u{a0}b"));
    assert_eq!(strings(&["x"]), split_words("x"));
    assert_eq!(strings(&[]), split_words(""));
    assert_eq!(strings(&[]), split_words(" \t\u{3000} "));
}

#[test]
fn the_first_word_is_found() {
    assert_eq!("p", first_word_of("p"));
    assert_eq!("p", first_word_of("  p q"));
    assert_eq!("", first_word_of(""));
    assert_eq!("", first_word_of("  \n"));
}

#[test]
fn single_words_are_told_apart() {
    assert!(is_single_word(""));
    assert!(is_single_word("   "));
    assert!(is_single_word("a"));
    assert!(is_single_word("  a  "));
    assert!(!is_single_word("a b"));
    assert!(!is_single_word(" a\tb "));
}

#[test]
fn words_are_joined_by_single_spaces() {
    assert_eq!("", join_with_spaces(&strings(&[])));
    assert_eq!("a", join_with_spaces(&strings(&["a"])));
    assert_eq!("a b c", join_with_spaces(&strings(&["a", "b", "c"])));
}

#[test]
fn an_attribute_is_made_from_a_value_string() {
    let attr = Attribute::from_name_and_str_values(String::from("class"), " one  two ");
    assert_eq!("class", attr.name());
    assert_eq!(&strings(&["one", "two"]), attr.values());
    assert_eq!("one two", attr.values_to_string());
    assert_eq!("one", attr.first_value());
}

#[test]
fn an_attribute_is_made_from_value_tokens() {
    let attr = Attribute::from_name_and_values(String::from("id"), strings(&["x"])).unwrap();
    assert_eq!("id", attr.name());
    assert_eq!(&strings(&["x"]), attr.values());
    let none = Attribute::from_name_and_values(String::from("id"), Vec::new()).unwrap();
    assert_eq!("", none.values_to_string());
}

#[test]
fn an_attribute_can_be_renamed_and_given_new_values() {
    let mut attr = Attribute::from_name_and_str_values(String::from("a"), "1 2");
    attr.set_name(String::from("b"));
    assert_eq!("b", attr.name());
    assert_eq!(Ok(()), attr.set_values(strings(&["3", "4", "5"])));
    assert_eq!(&strings(&["3", "4", "5"]), attr.values());
}

#[test]
fn values_with_white_space_inside_are_refused() {
    let mut attr = Attribute::from_name_and_str_values(String::from("a"), "1 2");
    assert_eq!(Err(()), attr.set_values(strings(&["3", "4 5"])));
    assert_eq!(&strings(&["1", "2"]), attr.values());
    assert_eq!("a", attr.name());
}

#[test]
fn attributes_are_equal_when_they_hold_the_same() {
    let a = Attribute::from_name_and_str_values(String::from("a"), "1 2");
    let b = Attribute::from_name_and_values(String::from("a"), strings(&["1", "2"])).unwrap();
    let c = Attribute::from_name_and_str_values(String::from("a"), "1");
    let d = Attribute::from_name_and_str_values(String::from("d"), "1 2");
    assert_eq!(a, b);
    assert_eq!(a, a.clone());
    assert_ne!(a, c);
    assert_ne!(a, d);
}

#[test]
fn the_first_attribute_of_a_name_is_found() {
    let node = element("<a href='x' id='i'>");
    assert_eq!("x", node.attribute_by_name("href").unwrap().first_value());
    assert_eq!("i", node.attribute_by_name("id").unwrap().first_value());
    assert!(node.attribute_by_name("class").is_none());
    assert!(Node::new().attribute_by_name("href").is_none());
}

#[test]
fn a_new_attribute_is_put_last() {
    let mut node = element("<a href='x'>");
    let attr = Attribute::from_name_and_str_values(String::from("class"), "b c");
    assert_eq!(Ok(()), node.put_attribute(attr));
    assert_eq!("<a href=\"x\" class=\"b c\">", node.to_html());
}

#[test]
fn an_attribute_that_is_there_is_not_put_again() {
    let mut node = element("<a href='x'>");
    let attr = Attribute::from_name_and_str_values(String::from("href"), "y");
    let back = node.put_attribute(attr.clone());
    assert_eq!(Err(attr), back);
    assert_eq!("<a href=\"x\">", node.to_html());
}

#[test]
fn overwriting_keeps_the_place_of_the_attribute() {
    let mut node = element("<a href='x' id='i'>");
    node.overwrite_attribute(Attribute::from_name_and_str_values(String::from("href"), "y z"));
    assert_eq!("<a href=\"y z\" id=\"i\">", node.to_html());
    node.overwrite_attribute(Attribute::from_name_and_str_values(String::from("rel"), "r"));
    assert_eq!("<a href=\"y z\" id=\"i\" rel=\"r\">", node.to_html());
}

#[test]
fn a_node_without_a_tag_takes_no_attribute() {
    let mut node = Node::new();
    node.overwrite_attribute(Attribute::from_name_and_str_values(String::from("a"), "1"));
    assert_eq!(Node::new(), node);
    let attr = Attribute::from_name_and_str_values(String::from("a"), "1");
    assert_eq!(Ok(()), node.put_attribute(attr));
    assert!(node.attributes().is_none());
    assert_eq!("", node.to_html());
}

#[test]
fn tags_can_be_renamed() {
    let mut node = element("<a href='x'>t</a>");
    node.change_name("b");
    assert_eq!(Some("b"), node.tag_name());
    assert_eq!(Some("b"), node.end());
    assert_eq!("<b href=\"x\">t</b>", node.to_html());

    node.change_opening_name("c");
    assert_eq!("<c href=\"x\">t</b>", node.to_html());
    node.change_closing_name("d");
    assert_eq!("<c href=\"x\">t</d>", node.to_html());
}

#[test]
fn a_tag_that_is_not_there_is_not_renamed() {
    let mut open = element("<img src='a'>");
    open.change_name("pic");
    assert_eq!(Some("pic"), open.tag_name());
    assert_eq!(None, open.end());
    assert_eq!("<pic src=\"a\">", open.to_html());

    let mut empty = Node::new();
    empty.change_name("x");
    assert_eq!(Node::new(), empty);
}
