use htmldom_read::ChildrenFetch;
use htmldom_read::ChildrenFetchMut;
use htmldom_read::LoadSettings;
use htmldom_read::Node;
use htmldom_read::NodeAccess;

const PAGE: &str = r#"
<div id="mydiv" class="box">
    <p class="someclass">Text</p>
    <ul class="list box">
        <li id="one" class="item someclass">1</li>
        <li id="two">2</li>
    </ul>
</div>
<a class="someclass else" href="x">link</a>
"#;

fn page() -> Node {
    Node::from_html(PAGE, &LoadSettings::new()).unwrap().unwrap()
}

fn names(found: &Vec<&NodeAccess>) -> Vec<String> {
    found.iter().map(|n| String::from(n.tag_name().unwrap())).collect()
}

fn strings(words: &[&str]) -> Vec<String> {
    words.iter().map(|w| String::from(*w)).collect()
}

#[test]
fn nodes_are_found_by_key_and_value() {
    let node = page();
    let result = node.children_fetch().key("id").value("mydiv").fetch();
    assert_eq!(1, result.len());
    assert_eq!(result[0], node.children().get(0).unwrap());
}

#[test]
fn nodes_are_found_by_a_part_of_the_value() {
    let node = page();
    let result = node.children_fetch().key("class").value_part("someclass").fetch();
    assert_eq!(strings(&["p", "li", "a"]), names(&result));
    assert_eq!(result[0], node.children().get(0).unwrap().children().get(0).unwrap());
    assert_eq!(result[2], node.children().get(1).unwrap());
}

#[test]
fn results_come_in_document_order_with_a_node_before_what_is_below_it() {
    let node = page();
    let result = node.children_fetch().key("class").fetch();
    assert_eq!(strings(&["div", "p", "ul", "li", "a"]), names(&result));
    let result = node.children_fetch().key("id").fetch();
    assert_eq!(strings(&["div", "li", "li"]), names(&result));
}

#[test]
fn what_is_below_a_match_is_searched_too() {
    let node = page();
    let result = node.children_fetch().key("class").value_part("box").fetch();
    assert_eq!(strings(&["div", "ul"]), names(&result));
    let result = node.children_fetch().value_part("box").fetch();
    assert_eq!(strings(&["div", "ul"]), names(&result));
}

#[test]
fn the_node_itself_is_not_searched() {
    let node = page();
    let div = node.children().get(0).unwrap();
    let result = div.children_fetch().key("class").fetch();
    assert_eq!(strings(&["p", "ul", "li"]), names(&result));
}

#[test]
fn the_whole_value_must_be_equal() {
    let node = page();
    assert_eq!(
        strings(&["a"]),
        names(&node.children_fetch().key("class").value("someclass else").fetch())
    );
    assert!(node.children_fetch().key("class").value("else someclass").fetch().is_empty());
    assert_eq!(
        strings(&["p"]),
        names(&node.children_fetch().key("class").value("someclass").fetch())
    );
}

#[test]
fn a_whole_value_overrides_a_part() {
    let node = page();
    let result = node.children_fetch().key("class").value("list box").value_part("nothing").fetch();
    assert_eq!(strings(&["ul"]), names(&result));
}

#[test]
fn without_a_key_every_attribute_is_tried_and_a_node_is_found_once() {
    let node = page();
    let result = node.children_fetch().fetch();
    assert_eq!(strings(&["div", "p", "ul", "li", "li", "a"]), names(&result));
    let result = node.children_fetch().value("x").fetch();
    assert_eq!(strings(&["a"]), names(&result));
    let result = node.children_fetch().value_part("one").fetch();
    assert_eq!(strings(&["li"]), names(&result));
}

#[test]
fn an_attribute_that_is_missing_finds_nothing() {
    let node = page();
    assert!(node.children_fetch().key("title").fetch().is_empty());
    assert!(node.children_fetch().key("id").value("three").fetch().is_empty());
    assert!(Node::new().children_fetch().fetch().is_empty());
}

#[test]
fn criteria_can_be_set_in_place_and_moved_to_another_node() {
    let node = page();
    let mut fetch = ChildrenFetch::for_node(&node);
    fetch.set_key("class");
    fetch.set_value_part("someclass");
    assert_eq!(strings(&["p", "li", "a"]), names(&fetch.fetch()));
    fetch.set_value("box");
    assert_eq!(strings(&["div"]), names(&fetch.fetch()));

    let ul = node.children().get(0).unwrap().children().get(1).unwrap();
    let below = ChildrenFetch::for_node(&node).key("id").same_for_node(ul);
    assert_eq!(strings(&["li", "li"]), names(&below.fetch()));
}

#[test]
fn the_fetcher_for_a_node_held_for_change_finds_the_same() {
    let mut node = page();
    let expected = names(&node.children_fetch().key("class").value_part("someclass").fetch());
    let found = names(&node.children_fetch_mut().key("class").value_part("someclass").fetch());
    assert_eq!(expected, found);

    let div = node.children().get(0).unwrap();
    let fetch = ChildrenFetchMut::for_node(&node).key("id").value("two").same_for_node(div);
    assert_eq!(strings(&["li"]), names(&fetch.fetch()));
}

#[test]
fn shared_children_are_searched_alike() {
    let node = Node::from_html(PAGE, &LoadSettings::new().sharable_children()).unwrap().unwrap();
    let result = node.children_fetch().key("class").value_part("someclass").fetch();
    assert_eq!(strings(&["p", "li", "a"]), names(&result));
    assert_eq!(result[2], node.children().get(1).unwrap());
}

#[test]
fn the_places_of_the_matches_are_given_in_the_order_of_the_matches() {
    let mut node = page();
    let fetch = node.children_fetch_mut().key("class").value_part("someclass");
    let paths = fetch.fetch_mut();
    assert_eq!(vec![vec![0, 0], vec![0, 1, 0], vec![1]], paths);

    let found = names(&node.children_fetch().key("class").value_part("someclass").fetch());
    let reached: Vec<String> = paths
        .iter()
        .map(|p| String::from(node.descendant_mut(p).unwrap().tag_name().unwrap()))
        .collect();
    assert_eq!(found, reached);
    assert!(Node::new().children_fetch_mut().fetch_mut().is_empty());
}

#[test]
fn matches_are_changed_one_at_a_time() {
    let html = "<a id='1'><b id='2'><c id='3'></c></b></a>";
    let mut node = Node::from_html(html, &LoadSettings::new()).unwrap().unwrap();
    let paths = node.children_fetch_mut().key("id").fetch_mut();
    assert_eq!(vec![vec![0], vec![0, 0], vec![0, 0, 0]], paths);
    for path in &paths {
        let found = node.descendant_mut(path).unwrap();
        found.try_mut().unwrap().change_name("x");
    }
    assert_eq!("<x id=\"1\"><x id=\"2\"><x id=\"3\"></x></x></x>", node.to_html());
}

#[test]
fn a_path_that_leads_nowhere_gives_no_access() {
    let mut node = page();
    let before = node.to_html();
    assert!(node.descendant_mut(&[]).is_none());
    assert!(node.descendant_mut(&[2]).is_none());
    assert!(node.descendant_mut(&[0, 5]).is_none());
    assert!(node.descendant_mut(&[1, 0, 0]).is_none());
    assert_eq!(Some("li"), node.descendant_mut(&[0, 1, 1]).unwrap().tag_name());
    assert_eq!(before, node.to_html());
}

#[test]
fn a_shared_node_that_is_held_elsewhere_is_not_passed_through() {
    let settings = LoadSettings::new().sharable_children();
    let mut node = Node::from_html("<a><b>x</b></a>", &settings).unwrap().unwrap();
    assert_eq!(Some("b"), node.descendant_mut(&[0, 0]).unwrap().tag_name());

    let held = node.children().get(0).unwrap().clone();
    // The child itself is reached, but nothing below it.
    assert_eq!(Some("a"), node.descendant_mut(&[0]).unwrap().tag_name());
    assert!(node.descendant_mut(&[0, 0]).is_none());
    drop(held);
    let b = node.descendant_mut(&[0, 0]).unwrap();
    b.try_mut().unwrap().change_name("i");
    assert_eq!("<a><i>x</i></a>", node.to_html());
}
