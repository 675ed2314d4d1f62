use htmldom_read::LoadError;
use htmldom_read::LoadSettings;
use htmldom_read::Node;
use htmldom_read::NodeAccess;

#[test]
fn from_html() {
    let html = r#"
        <p>Some text
            <img src="a">
        </p>
        <a>Link</a>
        <br />
        "#;

    let result = Node::from_html(html, &Default::default());
    let result = result.unwrap();
    let root = result.unwrap();

    let node = root.children().get(0).unwrap();
    let start = node.start().as_ref();
    let name = start.unwrap().name();
    assert_eq!("p", name);

    let text = root.children().get(0).unwrap().children();
    let text = text.get(0).unwrap().text();
    assert_eq!("Some text", text.unwrap());

    let child = root.children().get(0).unwrap().children().get(1).unwrap();
    let child_name = child.tag_name();
    assert_eq!("img", child_name.unwrap());

    let child = root.children().get(1).unwrap();
    assert_eq!(child.tag_name().unwrap(), "a");
    assert_eq!("Link", child.children().get(0).unwrap().text().unwrap());

    let node = root.children().get(2).unwrap();
    assert_eq!("br", node.tag_name().unwrap());
}

#[test]
fn from_html_separate_text() {
    let html = r#"
        <p>Text</p>
        "#;
    let load = Node::from_html(html, &LoadSettings::new().all_text_separately(true));
    let load = load.unwrap().unwrap();

    let child = load.children().get(0).unwrap().children().get(0).unwrap();
    assert_eq!(child.text().unwrap(), "Text");
}

#[test]
fn from_html_empty() {
    let html = "   ";

    let result = Node::from_html(html, &Default::default());
    assert!(result.unwrap().is_none());
}

#[test]
fn from_html_with_spaces() {
    let html = "   <p>\n  Some  </p>";

    let result = Node::from_html(html, &Default::default());
    let result = result.unwrap().unwrap();

    let first = result.children().get(0).unwrap();
    assert_eq!(first.tag_name().unwrap(), "p");
    assert_eq!("Some  ", first.children().get(0).unwrap().text().unwrap());
}

#[test]
fn node_to_html() {
    let html = "<p><i>Text</i><br></p>";

    let result = Node::from_html(html, &Default::default());
    let result = result.unwrap().unwrap();

    let new_html = result.to_html();

    assert_eq!(html, &new_html);
}

#[test]
fn overwrite_attribute() {
    let html = "<a href='a'>";
    let result = Node::from_html(html, &Default::default());
    let mut result = result.unwrap().unwrap();
    let node = result.children_mut().get_mut(0).unwrap();

    let mut attr = node.attribute_by_name("href").unwrap().clone();
    attr.set_values(vec![String::from("b")]).unwrap();

    node.try_mut().unwrap().overwrite_attribute(attr);
    let html = result.to_html();

    assert_eq!("<a href=\"b\">", &html);
}

#[test]
fn nothing_to_load_gives_no_tree() {
    for html in ["", " ", "\n", "\t\n  \n", "   \n   "] {
        let result = Node::from_html(html, &LoadSettings::new());
        assert!(result.unwrap().is_none(), "{:?}", html);
    }
}

#[test]
fn a_stray_closing_tag_alone_gives_no_tree() {
    let result = Node::from_html("</p>", &LoadSettings::new());
    assert!(result.unwrap().is_none());
}

#[test]
fn paragraph_image_link_and_break() {
    let html = "<p>Some text\n<img src=\"a\">\n</p><a>Link</a><br />";
    let root = Node::from_html(html, &LoadSettings::new()).unwrap().unwrap();
    assert!(root.start().is_none());
    assert!(root.text().is_none());
    assert!(root.end().is_none());
    assert_eq!(3, root.children().len());

    let p = root.children().get(0).unwrap();
    assert_eq!(Some("p"), p.tag_name());
    assert_eq!(Some("p"), p.end());
    assert_eq!(None, p.text());
    assert_eq!(2, p.children().len());
    let text = p.children().get(0).unwrap();
    assert_eq!(Some("Some text"), text.text());
    assert!(text.start().is_none());
    assert_eq!(0, text.children().len());
    let img = p.children().get(1).unwrap();
    assert_eq!(Some("img"), img.tag_name());
    assert_eq!(None, img.end());
    assert_eq!(0, img.children().len());
    let src = img.attribute_by_name("src").unwrap();
    assert_eq!(&vec![String::from("a")], src.values());
    assert!(!img.start().as_ref().unwrap().is_self_closing());

    let a = root.children().get(1).unwrap();
    assert_eq!(Some("a"), a.tag_name());
    assert_eq!(Some("a"), a.end());
    assert_eq!(1, a.children().len());
    assert_eq!(Some("Link"), a.children().get(0).unwrap().text());

    let br = root.children().get(2).unwrap();
    assert_eq!(Some("br"), br.tag_name());
    assert!(br.start().as_ref().unwrap().is_self_closing());
    assert_eq!(None, br.end());
    assert_eq!(0, br.children().len());
}

#[test]
fn text_mixed_with_an_element_is_hoisted() {
    let html = "<p>Text <sup>child</sup> more text</p>";
    let settings = LoadSettings::new().all_text_separately(false);
    let root = Node::from_html(html, &settings).unwrap().unwrap();
    assert_eq!(1, root.children().len());
    let p = root.children().get(0).unwrap();
    assert_eq!(Some("p"), p.tag_name());
    assert_eq!(None, p.text());
    assert_eq!(3, p.children().len());

    let first = p.children().get(0).unwrap();
    assert_eq!(Some("Text "), first.text());
    assert!(first.start().is_none());

    let sup = p.children().get(1).unwrap();
    assert_eq!(Some("sup"), sup.tag_name());
    assert_eq!(Some("child"), sup.text());
    assert_eq!(0, sup.children().len());
    assert_eq!(Some("sup"), sup.end());

    let last = p.children().get(2).unwrap();
    assert_eq!(Some(" more text"), last.text());
    assert!(last.start().is_none());
}

#[test]
fn lone_text_stays_in_its_element_when_not_separated() {
    let settings = LoadSettings::new().all_text_separately(false);
    let root = Node::from_html("<p>Text</p>", &settings).unwrap().unwrap();
    let p = root.children().get(0).unwrap();
    assert_eq!(Some("Text"), p.text());
    assert_eq!(0, p.children().len());
}

#[test]
fn overwritten_attribute_is_written_out() {
    let mut root = Node::from_html("<a href='a'>", &LoadSettings::new()).unwrap().unwrap();
    let node = root.children_mut().get_mut(0).unwrap();
    let attr = htmldom_read::Attribute::from_name_and_values(
        String::from("href"),
        vec![String::from("b")],
    )
    .unwrap();
    node.try_mut().unwrap().overwrite_attribute(attr);
    assert_eq!("<a href=\"b\">", root.to_html());
}

#[test]
fn a_mismatched_closing_tag_is_left_for_the_element_further_out() {
    let root = Node::from_html("<div><b>x</i></div>", &LoadSettings::new()).unwrap().unwrap();
    assert_eq!(1, root.children().len());
    let div = root.children().get(0).unwrap();
    assert_eq!(Some("div"), div.tag_name());
    // `</i>` closes neither `b` nor `div`: both stay open, and the reading
    // of nodes stops at it.
    assert_eq!(None, div.end());
    let b = div.children().get(0).unwrap();
    assert_eq!(Some("b"), b.tag_name());
    assert_eq!(None, b.end());
    assert_eq!(Some("x"), b.children().get(0).unwrap().text());
}

#[test]
fn an_unclosed_element_leaves_the_closing_tag_to_its_parent() {
    let root = Node::from_html("<ul><li>one<li>two</ul>", &LoadSettings::new()).unwrap().unwrap();
    let ul = root.children().get(0).unwrap();
    assert_eq!(Some("ul"), ul.tag_name());
    assert_eq!(Some("ul"), ul.end());
    assert_eq!(1, ul.children().len());
    let first = ul.children().get(0).unwrap();
    assert_eq!(Some("li"), first.tag_name());
    assert_eq!(None, first.end());
    assert_eq!(2, first.children().len());
    assert_eq!(Some("one"), first.children().get(0).unwrap().text());
    let second = first.children().get(1).unwrap();
    assert_eq!(Some("li"), second.tag_name());
    assert_eq!(None, second.end());
    assert_eq!(Some("two"), second.children().get(0).unwrap().text());
}

#[test]
fn comments_are_left_out() {
    let root = Node::from_html("<p><!-- note -->x</p>", &LoadSettings::new()).unwrap().unwrap();
    let p = root.children().get(0).unwrap();
    assert_eq!(1, p.children().len());
    assert_eq!(Some("x"), p.children().get(0).unwrap().text());
    assert_eq!("<p>x</p>", root.to_html());
}

#[test]
fn malformed_markup_is_an_error() {
    let result = Node::from_html("<p><!x></p>", &LoadSettings::new());
    match result {
        Err(LoadError::Malformed(_)) => {}
        other => panic!("{:?}", other),
    }
}

#[test]
fn attribute_values_are_split_at_white_space() {
    let html = "<a class=\"one  two\tthree\" id='x'>";
    let root = Node::from_html(html, &LoadSettings::new()).unwrap().unwrap();
    let a = root.children().get(0).unwrap();
    let attrs = a.attributes().unwrap();
    assert_eq!(2, attrs.len());
    assert_eq!("class", attrs[0].name());
    assert_eq!(
        &vec![String::from("one"), String::from("two"), String::from("three")],
        attrs[0].values()
    );
    assert_eq!("one two three", attrs[0].values_to_string());
    assert_eq!("id", attrs[1].name());
    assert_eq!("x", attrs[1].first_value());
    assert_eq!("<a class=\"one two three\" id=\"x\">", root.to_html());
}

#[test]
fn a_malformed_attribute_is_skipped() {
    let root = Node::from_html("<a href='x' broken>", &LoadSettings::new()).unwrap().unwrap();
    let a = root.children().get(0).unwrap();
    let attrs = a.attributes().unwrap();
    assert_eq!(1, attrs.len());
    assert_eq!("href", attrs[0].name());
}

#[test]
fn a_self_closing_tag_has_no_attributes() {
    let root = Node::from_html("<img src='a' />", &LoadSettings::new()).unwrap().unwrap();
    let img = root.children().get(0).unwrap();
    assert_eq!(Some("img"), img.tag_name());
    assert!(img.start().as_ref().unwrap().is_self_closing());
    assert_eq!(0, img.attributes().unwrap().len());
    assert_eq!("<img/>", root.to_html());
}

#[test]
fn sharable_children_are_stored_behind_pointers() {
    let settings = LoadSettings::new().sharable_children();
    let root = Node::from_html("<p><b>x</b></p>", &settings).unwrap().unwrap();
    let p = root.children().get(0).unwrap();
    assert!(matches!(p, NodeAccess::Sharable(_)));
    let b = p.children().get(0).unwrap();
    assert!(matches!(b, NodeAccess::Sharable(_)));
    assert!(matches!(b.children().get(0).unwrap(), NodeAccess::Sharable(_)));

    let owned = Node::from_html("<p><b>x</b></p>", &LoadSettings::new().owned_children())
        .unwrap()
        .unwrap();
    assert!(matches!(owned.children().get(0).unwrap(), NodeAccess::Owned(_)));
    assert_eq!(owned.to_html(), root.to_html());
}

#[test]
fn well_formed_markup_is_written_out_as_it_was_read() {
    for html in [
        "<p><i>Text</i><br></p>",
        "<div id=\"a\"><p class=\"x y\">one</p><p>two</p></div>",
        "<a>1</a><b>2</b><c/>",
        "<p>Text <sup>child</sup> more text</p>",
    ] {
        for settings in [
            LoadSettings::new(),
            LoadSettings::new().all_text_separately(false),
            LoadSettings::new().sharable_children(),
        ] {
            let root = Node::from_html(html, &settings).unwrap().unwrap();
            assert_eq!(html, root.to_html());
        }
    }
}

#[test]
fn layout_white_space_is_not_written_out() {
    let html = "<div>\n    <p>one</p>\n    <p>two</p>\n</div>\n";
    let root = Node::from_html(html, &LoadSettings::new()).unwrap().unwrap();
    assert_eq!("<div><p>one</p><p>two</p></div>", root.to_html());
}
