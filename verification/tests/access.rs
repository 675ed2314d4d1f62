use htmldom_read::Children;
use htmldom_read::ChildrenType;
use htmldom_read::LoadSettings;
use htmldom_read::Node;
use htmldom_read::NodeAccess;
use std::sync::Arc;

const MARKUP: &str = "<div id='a'><p>one</p><p>two</p></div>";

fn load(settings: &LoadSettings) -> Node {
    Node::from_html(MARKUP, settings).unwrap().unwrap()
}

fn first(node: &Node) -> &NodeAccess {
    node.children().get(0).unwrap()
}

#[test]
fn owned_nodes_with_the_same_content_are_equal() {
    let a = load(&LoadSettings::new());
    let b = load(&LoadSettings::new());
    assert_eq!(first(&a), first(&b));
    assert_eq!(a, b);
    assert_eq!(NodeAccess::Owned(a), NodeAccess::Owned(b));
}

#[test]
fn shared_nodes_are_equal_only_to_themselves() {
    let settings = LoadSettings::new().sharable_children();
    let a = load(&settings);
    let b = load(&settings);
    assert_ne!(first(&a), first(&b));
    assert_eq!(first(&a), first(&a));
    assert_eq!(first(&a), &first(&a).clone());
    // The roots hold different children.
    assert_ne!(a, b);
    assert_eq!(a.to_html(), b.to_html());
}

#[test]
fn an_owned_node_never_equals_a_shared_one() {
    let owned = load(&LoadSettings::new());
    let shared = load(&LoadSettings::new().sharable_children());
    assert_ne!(first(&owned), first(&shared));
    assert_ne!(first(&shared), first(&owned));
    assert_ne!(first(&owned), &first(&owned).to_sharable());
}

#[test]
fn owned_nodes_that_differ_are_not_equal() {
    let a = load(&LoadSettings::new());
    let b = Node::from_html("<div id='a'><p>one</p><p>three</p></div>", &LoadSettings::new())
        .unwrap()
        .unwrap();
    let c = load(&LoadSettings::new().all_text_separately(false));
    assert_ne!(a, b);
    assert_ne!(first(&a), first(&b));
    assert_ne!(a, c);
}

#[test]
fn a_shared_node_is_changed_only_through_its_one_pointer() {
    let mut node = NodeAccess::Sharable(Arc::new(Node::new()));
    let other = node.clone();
    assert!(node.try_mut().is_none());
    drop(other);
    assert!(node.try_mut().is_some());
}

#[test]
fn an_owned_node_can_always_be_changed() {
    let mut root = load(&LoadSettings::new());
    let div = root.children_mut().get_mut(0).unwrap();
    let copy = div.clone();
    div.try_mut().unwrap().change_name("section");
    assert_eq!(Some("section"), div.tag_name());
    assert_eq!(Some("div"), copy.tag_name());
    assert_eq!("<section id=\"a\"><p>one</p><p>two</p></section>", root.to_html());
}

#[test]
fn a_change_through_a_shared_node_is_seen_in_the_tree() {
    let mut root = load(&LoadSettings::new().sharable_children());
    let div = root.children_mut().get_mut(0).unwrap();
    div.try_mut().unwrap().change_name("section");
    assert!(matches!(div, NodeAccess::Sharable(_)));
    assert_eq!("<section id=\"a\"><p>one</p><p>two</p></section>", root.to_html());
}

#[test]
fn conversion_copies_the_node() {
    let root = load(&LoadSettings::new());
    let div = first(&root);
    let mut shared = div.to_sharable();
    assert!(matches!(shared, NodeAccess::Sharable(_)));
    assert_eq!(div.to_html(), shared.to_html());
    // The copy has a pointer of its own.
    shared.try_mut().unwrap().change_name("x");
    assert_eq!(Some("div"), div.tag_name());

    let again = shared.to_sharable();
    assert_ne!(shared, again);
    assert_eq!(shared.to_html(), again.to_html());

    let mut owned = shared.to_owned();
    assert!(matches!(owned, NodeAccess::Owned(_)));
    assert_eq!(shared.to_html(), owned.to_html());
    owned.try_mut().unwrap().change_name("y");
    assert_eq!(Some("x"), shared.tag_name());
    assert_eq!(div.to_owned(), *div);
}

#[test]
fn children_are_converted_one_by_one() {
    let root = load(&LoadSettings::new());
    let div = first(&root);
    let shared = div.children().to_sharable();
    assert_eq!(2, shared.len());
    assert!(shared.iter().all(|c| matches!(c, NodeAccess::Sharable(_))));
    let owned = shared.to_owned();
    assert!(owned.iter().all(|c| matches!(c, NodeAccess::Owned(_))));
    assert_eq!(div.children(), &owned);
    assert_ne!(div.children(), &shared);
    assert_eq!(Some("two"), owned.get(1).unwrap().children().get(0).unwrap().text());
}

#[test]
fn children_are_a_list_that_can_be_changed() {
    let mut root = load(&LoadSettings::new());
    let extra = NodeAccess::Owned(Node::new());
    root.children_mut().push(extra);
    assert_eq!(2, root.children().len());
    let taken = root.children_mut().remove(0);
    assert_eq!(Some("div"), taken.tag_name());
    assert_eq!(1, root.children().len());
    assert_eq!("", root.to_html());

    let list: Vec<NodeAccess> = Children::default().into_iter().collect();
    assert!(list.is_empty());
    let names: Vec<String> = load(&LoadSettings::new())
        .children()
        .clone()
        .into_iter()
        .map(|c| String::from(c.tag_name().unwrap()))
        .collect();
    assert_eq!(vec![String::from("div")], names);
}

#[test]
fn a_new_node_is_empty() {
    let node = Node::new();
    assert!(node.start().is_none());
    assert!(node.text().is_none());
    assert!(node.end().is_none());
    assert!(node.tag_name().is_none());
    assert!(node.attributes().is_none());
    assert_eq!(0, node.children().len());
    assert_eq!(Node::default(), node);
}

#[test]
fn settings_are_built_step_by_step() {
    let default = LoadSettings::default();
    assert_eq!(LoadSettings::new(), default);
    assert!(default.separates_text());
    assert_eq!(ChildrenType::Owned, default.storage());

    let mut settings = LoadSettings::new().sharable_children().all_text_separately(false);
    assert!(!settings.separates_text());
    assert_eq!(ChildrenType::Sharable, settings.storage());
    settings.set_all_text_separately(true);
    assert!(settings.separates_text());
    assert_eq!(LoadSettings::new(), settings.owned_children());
    assert_ne!(LoadSettings::new(), settings);
}
