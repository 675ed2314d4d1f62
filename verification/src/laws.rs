//! What holds of the library as a whole: statements that tie several of its
//! functions together, each proved from their definitions.

use crate::attribute::attribute_position;
use crate::attribute::attributes_overwritten;
use crate::attribute::lemma_attribute_position;
use crate::attribute::lemma_attribute_position_is_first;
use crate::attribute::lemma_attribute_position_none;
use crate::attribute::AttributeView;
use crate::attribute::OpeningTagView;
use crate::node::attribute_named;
use crate::node::with_attribute;
use crate::builder::closes_at;
use crate::builder::document_tokens;
use crate::builder::element_of;
use crate::builder::lemma_reading_advances;
use crate::builder::node_at;
use crate::builder::nodes_from;
use crate::builder::opening_tag_of;
use crate::builder::text_at;
use crate::builder::tree_of;
use crate::fetch::Criterion;
use crate::fetch::descendants;
use crate::fetch::lemma_matching_step;
use crate::fetch::matching;
use crate::fetch::node_matches;
use crate::fetch::preorder;
use crate::markup::children_markup;
use crate::markup::closing_markup;
use crate::markup::node_markup;
use crate::markup::opening_markup;
use crate::markup::token_markup;
use crate::markup::tokens_markup;
use crate::markup::well_formed;
use crate::markup::well_formed_from;
use crate::node::ChildView;
use crate::node::NodeView;
use crate::node::all_owned;
use crate::node::stored;
use crate::node::text_node;
use crate::normalize::all_blank;
use crate::normalize::is_blank;
use crate::normalize::leading_blanks;
use crate::normalize::lemma_leading_blanks;
use crate::normalize::lemma_trailing_blanks;
use crate::normalize::normalized_text;
use crate::normalize::trimmed_at_start;
use crate::settings::ChildrenType;
use crate::settings::LoadSettings;
use crate::token::TokenView;
use crate::token::tokens_of;
use crate::tokenizer::RawEventView;
use crate::tokenizer::markup_script;
use crate::tokenizer::script_events;
use vstd::prelude::*;

verus! {

/// Whether the event is a run of text that holds nothing but spaces, tabs
/// and line breaks.
pub open spec fn is_blank_text(event: RawEventView) -> bool {
    event is Text && all_blank(event->bytes)
}

/// Nothing is left of a run of text once it is normalized exactly when it
/// holds nothing but spaces, tabs and line breaks.
pub proof fn lemma_blank_text_normalizes_to_nothing(s: Seq<u8>)
    ensures
        normalized_text(s).len() == 0 <==> all_blank(s),
{
    lemma_leading_blanks(s);
    let t = trimmed_at_start(s);
    lemma_trailing_blanks(t);
    if all_blank(s) {
        if s.len() > 0 {
            assert(t.len() == 0);
        }
    }
    if normalized_text(s).len() == 0 {
        if t.len() > 0 {
            // All of `t` was trimmed at its end.
            assert(all_blank(t));
            if t != s {
                assert forall|i: int| 0 <= i < s.len() implies is_blank(
                    #[trigger] s[i],
                ) by {
                    let lead = leading_blanks(s) as int;
                    if i >= lead {
                        assert(t[i - lead] == s[i]);
                    }
                }
            }
        } else if s.len() > 0 {
            assert(t.len() == s.len() - leading_blanks(s));
        }
    }
}

/// Events that are all blank runs of text stand for no token.
pub proof fn lemma_blank_events_have_no_tokens(events: Seq<RawEventView>)
    requires
        forall|i: int| 0 <= i < events.len() ==> is_blank_text(#[trigger] events[i]),
    ensures
        tokens_of(events) == Ok::<Seq<TokenView>, ()>(Seq::empty()),
    decreases events.len(),
{
    if events.len() > 0 {
        let front = events.drop_last();
        assert forall|i: int| 0 <= i < front.len() implies is_blank_text(#[trigger] front[i]) by {
            assert(front[i] == events[i]);
        }
        lemma_blank_events_have_no_tokens(front);
        assert(is_blank_text(events.last()));
        lemma_blank_text_normalizes_to_nothing(events.last()->bytes);
    }
}

/// A document that is empty, or in which the tokenizer finds nothing but
/// blank runs of text, has no tree: `Node::from_html` returns `Ok(None)`
/// for it, whatever the settings are.
pub proof fn lemma_blank_document_has_no_tree(html: Seq<char>, settings: LoadSettings)
    requires
        script_events(markup_script(html)) is Some,
        forall|i: int|
            0 <= i < script_events(markup_script(html))->0.len() ==> is_blank_text(
                #[trigger] script_events(markup_script(html))->0[i],
            ),
    ensures
        document_tokens(html) == Ok::<Seq<TokenView>, ()>(Seq::empty()),
        tree_of(document_tokens(html)->Ok_0, settings) is None,
{
    lemma_blank_events_have_no_tokens(script_events(markup_script(html))->0);
    lemma_no_tokens_no_tree(settings);
}

/// Without tokens there is no tree.
pub proof fn lemma_no_tokens_no_tree(settings: LoadSettings)
    ensures
        tree_of(Seq::empty(), settings) is None,
{
    assert(node_at(Seq::empty(), 0, settings) is None);
}

/// The search goes through the children in their order, and through all
/// that is below a child before it turns to the next. Whether a child is
/// found or not, what is below it is searched all the same.
pub proof fn lemma_search_is_preorder(children: Seq<ChildView>, c: Criterion)
    requires
        children.len() > 0,
    ensures
        matching(preorder(children), c) == matching(preorder(children.drop_last()), c) + (
        if node_matches(c, children.last().node) {
            seq![children.last()]
        } else {
            Seq::empty()
        }) + matching(descendants(children.last().node), c),
{
    lemma_matching_step(preorder(children.drop_last()), children.last(), c);
}

/// What a search returns are the nodes below the node that match, all of
/// them and no others, in the order in which they stand below the node.
pub proof fn lemma_search_finds_the_matches(n: NodeView, c: Criterion)
    ensures
        forall|i: int|
            0 <= i < matching(descendants(n), c).len() ==> node_matches(
                c,
                (#[trigger] matching(descendants(n), c)[i]).node,
            ) && descendants(n).contains(matching(descendants(n), c)[i]),
        forall|i: int|
            0 <= i < descendants(n).len() && node_matches(c, descendants(n)[i].node) ==> matching(
                descendants(n),
                c,
            ).contains(#[trigger] descendants(n)[i]),
        matching(descendants(n), c).len() <= descendants(n).len(),
{
    let p = |x: ChildView| node_matches(c, x.node);
    let all = descendants(n);
    broadcast use vstd::seq_lib::group_filter_ensures;

    assert forall|i: int| 0 <= i < all.filter(p).len() implies node_matches(
        c,
        (#[trigger] all.filter(p)[i]).node,
    ) && all.contains(all.filter(p)[i]) by {
        all.lemma_filter_pred(p, i);
        assert(all.filter(p).contains(all.filter(p)[i]));
        all.lemma_filter_contains_rev(p, all.filter(p)[i]);
    }
    assert forall|i: int| 0 <= i < all.len() && node_matches(c, all[i].node) implies all.filter(
        p,
    ).contains(#[trigger] all[i]) by {
        all.lemma_filter_contains(p, i);
    }
    all.lemma_filter_len(p);
}

/// Under settings that store children as owned, no node of a tree sits
/// behind a shared pointer. Two such trees built from the same tokens hold
/// the same, and `==` on them, and on the `NodeAccess::Owned` that hold
/// them, says so.
pub proof fn lemma_owned_tree_is_all_owned(tokens: Seq<TokenView>, settings: LoadSettings)
    requires
        settings.children_type() == ChildrenType::Owned,
    ensures
        tree_of(tokens, settings) matches Some(tree) ==> all_owned(tree),
{
    lemma_owned_nodes(tokens, 0, settings);
    let nodes = nodes_from(tokens, 0, settings).0;
    if nodes.len() > 0 {
        let tree = tree_of(tokens, settings)->0;
        assert forall|i: int| 0 <= i < tree.children.len() implies !(
        #[trigger] tree.children[i]).shared && all_owned(tree.children[i].node) by {
            assert(tree.children[i].node == nodes[i]);
        }
    }
}

/// Under settings that store children as owned, no node that is read from
/// the tokens holds a child behind a shared pointer.
proof fn lemma_owned_nodes(tokens: Seq<TokenView>, pos: int, settings: LoadSettings)
    requires
        0 <= pos <= tokens.len(),
        settings.children_type() == ChildrenType::Owned,
    ensures
        node_at(tokens, pos, settings) matches Some((node, _)) ==> all_owned(node),
        forall|i: int|
            0 <= i < nodes_from(tokens, pos, settings).0.len() ==> all_owned(
                #[trigger] nodes_from(tokens, pos, settings).0[i],
            ),
    decreases tokens.len() - pos, 1int,
{
    lemma_owned_node(tokens, pos, settings);
    lemma_reading_advances(tokens, pos, settings);
    match node_at(tokens, pos, settings) {
        Some((node, next)) => {
            lemma_owned_nodes(tokens, next, settings);
            let rest = nodes_from(tokens, next, settings).0;
            let all = nodes_from(tokens, pos, settings).0;
            assert(all == seq![node] + rest);
            assert forall|i: int| 0 <= i < all.len() implies all_owned(#[trigger] all[i]) by {
                if i > 0 {
                    assert(all[i] == rest[i - 1]);
                }
            }
        },
        None => {},
    }
}

/// Under settings that store children as owned, the node that begins at
/// `pos` holds no child behind a shared pointer.
proof fn lemma_owned_node(tokens: Seq<TokenView>, pos: int, settings: LoadSettings)
    requires
        0 <= pos <= tokens.len(),
        settings.children_type() == ChildrenType::Owned,
    ensures
        node_at(tokens, pos, settings) matches Some((node, _)) ==> all_owned(node),
    decreases tokens.len() - pos, 0int,
{
    if pos < tokens.len() {
        match tokens[pos] {
            TokenView::Start { name, attrs } => {
                let body = if text_at(tokens, pos + 1) {
                    pos + 2
                } else {
                    pos + 1
                };
                lemma_owned_nodes(tokens, body, settings);
                let kids = nodes_from(tokens, body, settings).0;
                let read = node_at(tokens, pos, settings)->0;
                let node = read.0;
                assert forall|i: int| 0 <= i < node.children.len() implies !(
                #[trigger] node.children[i]).shared && all_owned(node.children[i].node) by {
                    if node.children.len() == kids.len() {
                        assert(node.children[i].node == kids[i]);
                    } else {
                        if i > 0 {
                            assert(node.children[i].node == kids[i - 1]);
                        } else {
                            assert(node.children[i].node.children.len() == 0);
                        }
                    }
                }
            },
            _ => {},
        }
    }
}

/// After an attribute has been written into a node with an opening tag, the
/// node's attribute of that name holds the values that were written, and
/// the node's attributes of other names are what they were.
pub proof fn lemma_written_attribute_is_found(n: NodeView, attr: AttributeView, key: Seq<char>)
    requires
        n.start is Some,
    ensures
        attribute_named(with_attribute(n, attr), attr.name) == Some(attr),
        key != attr.name ==> attribute_named(with_attribute(n, attr), key) == attribute_named(
            n,
            key,
        ),
{
    let before = n.start->0.attrs;
    let after = attributes_overwritten(before, attr);
    lemma_attribute_position_is_first(before, attr.name);
    lemma_attribute_position_is_first(before, key);
    match attribute_position(before, attr.name) {
        Some(i) => {
            assert(after[i] == attr);
            assert forall|j: int| 0 <= j < i implies (#[trigger] after[j]).name != attr.name by {
                assert(after[j] == before[j]);
            }
            lemma_attribute_position(after, attr.name, i);
            if key != attr.name {
                match attribute_position(before, key) {
                    Some(k) => {
                        assert(after[k] == before[k]);
                        assert forall|j: int| 0 <= j < k implies (#[trigger] after[j]).name
                            != key by {
                            if j != i {
                                assert(after[j] == before[j]);
                            }
                        }
                        lemma_attribute_position(after, key, k);
                    },
                    None => {
                        assert forall|j: int| 0 <= j < after.len() implies (
                        #[trigger] after[j]).name != key by {
                            if j != i {
                                assert(after[j] == before[j]);
                            }
                        }
                        lemma_attribute_position_none(after, key);
                    },
                }
            }
        },
        None => {
            let last = before.len() as int;
            assert(after[last] == attr);
            assert forall|j: int| 0 <= j < last implies (#[trigger] after[j]).name
                != attr.name by {
                assert(after[j] == before[j]);
            }
            lemma_attribute_position(after, attr.name, last);
            if key != attr.name {
                match attribute_position(before, key) {
                    Some(k) => {
                        assert(after[k] == before[k]);
                        assert forall|j: int| 0 <= j < k implies (#[trigger] after[j]).name
                            != key by {
                            assert(after[j] == before[j]);
                        }
                        lemma_attribute_position(after, key, k);
                    },
                    None => {
                        assert forall|j: int| 0 <= j < after.len() implies (
                        #[trigger] after[j]).name != key by {
                            if j < last {
                                assert(after[j] == before[j]);
                            }
                        }
                        lemma_attribute_position_none(after, key);
                    },
                }
            }
        },
    }
}

/// Whether the node has the shape of a node that is built from tokens
/// under the settings, and so have all nodes below it.
///
/// Text and children never stand side by side in a node: where an element
/// has children its text is one of them. A node without an opening tag is
/// a run of text and nothing else. A closing tag repeats the name of the
/// opening tag. A self-closing element is empty. Every child is stored the
/// way that the settings name, and where the settings ask for it no
/// element keeps a text of its own.
pub open spec fn well_placed(n: NodeView, settings: LoadSettings) -> bool
    decreases n,
{
    &&& n.text is Some ==> n.children.len() == 0
    &&& n.start is None ==> n.text is Some && n.end is None
    &&& n.end is Some ==> n.start is Some && n.end->0 == n.start->0.name
        && !n.start->0.self_closing
    &&& n.start is Some && n.start->0.self_closing ==> n.children.len() == 0 && n.text is None
        && n.start->0.attrs.len() == 0
    &&& n.start is Some && settings.separates_all_text() ==> n.text is None
    &&& forall|i: int|
        0 <= i < n.children.len() ==> (#[trigger] n.children[i]).shared
            == settings.shares_children() && well_placed(n.children[i].node, settings)
}

/// Every node that is read from tokens is well placed.
pub proof fn lemma_nodes_are_well_placed(tokens: Seq<TokenView>, pos: int, settings: LoadSettings)
    requires
        0 <= pos <= tokens.len(),
    ensures
        node_at(tokens, pos, settings) matches Some((node, _)) ==> well_placed(node, settings),
        forall|i: int|
            0 <= i < nodes_from(tokens, pos, settings).0.len() ==> well_placed(
                #[trigger] nodes_from(tokens, pos, settings).0[i],
                settings,
            ),
    decreases tokens.len() - pos, 1int,
{
    lemma_node_is_well_placed(tokens, pos, settings);
    lemma_reading_advances(tokens, pos, settings);
    match node_at(tokens, pos, settings) {
        Some((node, next)) => {
            lemma_nodes_are_well_placed(tokens, next, settings);
            let rest = nodes_from(tokens, next, settings).0;
            let all = nodes_from(tokens, pos, settings).0;
            assert(all == seq![node] + rest);
            assert forall|i: int| 0 <= i < all.len() implies well_placed(
                #[trigger] all[i],
                settings,
            ) by {
                if i > 0 {
                    assert(all[i] == rest[i - 1]);
                }
            }
        },
        None => {},
    }
}

/// The node that begins at `pos` is well placed.
proof fn lemma_node_is_well_placed(tokens: Seq<TokenView>, pos: int, settings: LoadSettings)
    requires
        0 <= pos <= tokens.len(),
    ensures
        node_at(tokens, pos, settings) matches Some((node, _)) ==> well_placed(node, settings),
    decreases tokens.len() - pos, 0int,
{
    if pos < tokens.len() {
        match tokens[pos] {
            TokenView::Start { name, attrs } => {
                let body = if text_at(tokens, pos + 1) {
                    pos + 2
                } else {
                    pos + 1
                };
                lemma_nodes_are_well_placed(tokens, body, settings);
                let kids = nodes_from(tokens, body, settings).0;
                let read = node_at(tokens, pos, settings)->0;
                let node = read.0;
                assert forall|i: int| 0 <= i < node.children.len() implies (
                #[trigger] node.children[i]).shared == settings.shares_children() && well_placed(
                    node.children[i].node,
                    settings,
                ) by {
                    if node.children.len() == kids.len() {
                        assert(node.children[i].node == kids[i]);
                    } else {
                        if i > 0 {
                            assert(node.children[i].node == kids[i - 1]);
                        } else {
                            assert(node.children[i].node.children.len() == 0);
                        }
                    }
                }
            },
            _ => {},
        }
    }
}

/// The tree of a document is a root without tags and without text, with at
/// least one child, and every node below it is well placed.
pub proof fn lemma_tree_is_well_placed(tokens: Seq<TokenView>, settings: LoadSettings)
    ensures
        tree_of(tokens, settings) matches Some(tree) ==> {
            &&& tree.start is None
            &&& tree.text is None
            &&& tree.end is None
            &&& tree.children.len() > 0
            &&& forall|i: int|
                0 <= i < tree.children.len() ==> (#[trigger] tree.children[i]).shared
                    == settings.shares_children() && well_placed(tree.children[i].node, settings)
        },
{
    lemma_nodes_are_well_placed(tokens, 0, settings);
    let nodes = nodes_from(tokens, 0, settings).0;
    if nodes.len() > 0 {
        let tree = tree_of(tokens, settings)->0;
        assert forall|i: int| 0 <= i < tree.children.len() implies (
        #[trigger] tree.children[i]).shared == settings.shares_children() && well_placed(
            tree.children[i].node,
            settings,
        ) by {
            assert(tree.children[i].node == nodes[i]);
        }
    }
}

/// What is written for two runs of tokens, one behind the other, is what is
/// written for the first followed by what is written for the second.
pub proof fn lemma_tokens_markup_concat(a: Seq<TokenView>, b: Seq<TokenView>)
    ensures
        tokens_markup(a + b) == tokens_markup(a) + tokens_markup(b),
    decreases b.len(),
{
    if b.len() == 0 {
        assert(a + b =~= a);
        assert(tokens_markup(a) + Seq::<char>::empty() =~= tokens_markup(a));
    } else {
        assert((a + b).drop_last() =~= a + b.drop_last());
        assert((a + b).last() == b.last());
        lemma_tokens_markup_concat(a, b.drop_last());
        assert(tokens_markup(a) + tokens_markup(b.drop_last()) + token_markup(b.last())
            =~= tokens_markup(a) + (tokens_markup(b.drop_last()) + token_markup(b.last())));
    }
}

/// What is written for a single token.
pub proof fn lemma_tokens_markup_one(t: TokenView)
    ensures
        tokens_markup(seq![t]) == token_markup(t),
{
    assert(seq![t].drop_last() =~= Seq::<TokenView>::empty());
    assert(seq![t].last() == t);
    assert(tokens_markup(seq![t].drop_last()) =~= Seq::<char>::empty());
    assert(Seq::<char>::empty() + token_markup(t) =~= token_markup(t));
}

/// What is written for two runs of children, one behind the other, is what
/// is written for the first followed by what is written for the second.
pub proof fn lemma_children_markup_concat(a: Seq<ChildView>, b: Seq<ChildView>)
    ensures
        children_markup(a + b) == children_markup(a) + children_markup(b),
    decreases b.len(),
{
    if b.len() == 0 {
        assert(a + b =~= a);
        assert(children_markup(a) + Seq::<char>::empty() =~= children_markup(a));
    } else {
        assert((a + b).drop_last() =~= a + b.drop_last());
        assert((a + b).last() == b.last());
        lemma_children_markup_concat(a, b.drop_last());
        assert(children_markup(a) + children_markup(b.drop_last()) + node_markup(b.last().node)
            =~= children_markup(a) + (children_markup(b.drop_last()) + node_markup(
            b.last().node,
        )));
    }
}

/// What is written for a single child.
pub proof fn lemma_children_markup_one(x: ChildView)
    ensures
        children_markup(seq![x]) == node_markup(x.node),
{
    assert(seq![x].drop_last() =~= Seq::<ChildView>::empty());
    assert(seq![x].last() == x);
    assert(children_markup(seq![x].drop_last()) =~= Seq::<char>::empty());
    assert(Seq::<char>::empty() + node_markup(x.node) =~= node_markup(x.node));
}

/// What is written for a run of text on its own.
pub proof fn lemma_text_node_markup(text: Seq<char>)
    ensures
        node_markup(text_node(text)) == text,
{
    let n = text_node(text);
    assert(children_markup(n.children) =~= Seq::<char>::empty());
    assert(node_markup(n) =~= text);
}

/// A node is written as the tokens were from which it was read, and so is
/// a run of nodes, whichever way the nodes are stored.
pub proof fn lemma_markup_of_nodes(tokens: Seq<TokenView>, pos: int, settings: LoadSettings)
    requires
        0 <= pos <= tokens.len(),
    ensures
        node_at(tokens, pos, settings) matches Some((node, next)) ==> node_markup(node)
            == tokens_markup(tokens.subrange(pos, next)),
        children_markup(
            stored(nodes_from(tokens, pos, settings).0, settings.shares_children()),
        ) == tokens_markup(tokens.subrange(pos, nodes_from(tokens, pos, settings).1)),
    decreases tokens.len() - pos, 1int,
{
    let shared = settings.shares_children();
    lemma_markup_of_node(tokens, pos, settings);
    lemma_reading_advances(tokens, pos, settings);
    match node_at(tokens, pos, settings) {
        Some((node, next)) => {
            lemma_markup_of_nodes(tokens, next, settings);
            lemma_reading_advances(tokens, next, settings);
            let (rest, end) = nodes_from(tokens, next, settings);
            assert(nodes_from(tokens, pos, settings) == (seq![node] + rest, end));
            assert(stored(seq![node] + rest, shared) =~= seq![ChildView { shared, node }] + stored(
                rest,
                shared,
            ));
            lemma_children_markup_concat(seq![ChildView { shared, node }], stored(rest, shared));
            lemma_children_markup_one(ChildView { shared, node });
            assert(tokens.subrange(pos, end) =~= tokens.subrange(pos, next) + tokens.subrange(
                next,
                end,
            ));
            lemma_tokens_markup_concat(tokens.subrange(pos, next), tokens.subrange(next, end));
        },
        None => {
            assert(tokens.subrange(pos, pos) =~= Seq::<TokenView>::empty());
            assert(stored(Seq::<NodeView>::empty(), shared) =~= Seq::<ChildView>::empty());
        },
    }
}

/// The text of a run of text that may or may not be there.
pub open spec fn text_or_nothing(text: Option<Seq<char>>) -> Seq<char> {
    match text {
        Some(t) => t,
        None => Seq::empty(),
    }
}

/// An element is written as its opening tag, the text that stood behind
/// the tag, the nodes that were read after it, and its closing tag if it
/// has one: the text at the same place whether it is kept in the element
/// or is its first child.
pub proof fn lemma_element_markup(
    tag: OpeningTagView,
    text: Option<Seq<char>>,
    kids: Seq<NodeView>,
    closed: bool,
    settings: LoadSettings,
)
    ensures
        node_markup(element_of(tag, text, kids, closed, settings)) == opening_markup(tag)
            + text_or_nothing(text) + children_markup(stored(kids, settings.shares_children())) + (
        if closed {
            closing_markup(tag.name)
        } else {
            Seq::empty()
        }),
{
    let shared = settings.shares_children();
    let node = element_of(tag, text, kids, closed, settings);
    let hoist = text is Some && (kids.len() > 0 || settings.separates_all_text());
    let inner = children_markup(stored(kids, shared));
    let end_part = if closed {
        closing_markup(tag.name)
    } else {
        Seq::<char>::empty()
    };
    assert(text_or_nothing(node.text) + children_markup(node.children) == text_or_nothing(text)
        + inner) by {
        if hoist {
            let first = ChildView { shared, node: text_node(text->0) };
            assert(node.children =~= seq![first] + stored(kids, shared));
            lemma_children_markup_concat(seq![first], stored(kids, shared));
            lemma_children_markup_one(first);
            lemma_text_node_markup(text->0);
            assert(text_or_nothing(node.text) + children_markup(node.children)
                =~= text_or_nothing(text) + inner);
        } else {
            assert(node.children =~= stored(kids, shared));
        }
    }
    assert(node_markup(node) =~= opening_markup(tag) + (text_or_nothing(node.text)
        + children_markup(node.children)) + end_part);
    assert(opening_markup(tag) + (text_or_nothing(text) + inner) + end_part =~= opening_markup(tag)
        + text_or_nothing(text) + inner + end_part);
}

/// The tokens of an element are written as the opening tag, the text
/// behind it, what stands inside, and the closing tag.
proof fn lemma_element_tokens_markup(
    tokens: Seq<TokenView>,
    pos: int,
    body: int,
    after: int,
    next: int,
)
    requires
        0 <= pos < body <= after <= next <= tokens.len(),
        tokens[pos] is Start,
        body == pos + 1 || (body == pos + 2 && tokens[pos + 1] is Text),
        next == after || (next == after + 1 && tokens[after] is End),
    ensures
        tokens_markup(tokens.subrange(pos, next)) == token_markup(tokens[pos]) + (if body == pos
            + 2 {
            tokens[pos + 1]->text
        } else {
            Seq::empty()
        }) + tokens_markup(tokens.subrange(body, after)) + (if next == after + 1 {
            closing_markup(tokens[after]->End_name)
        } else {
            Seq::empty()
        }),
{
    let head = tokens.subrange(pos, body);
    let middle = tokens.subrange(body, after);
    let tail = tokens.subrange(after, next);
    assert(tokens.subrange(pos, next) =~= head + middle + tail);
    lemma_tokens_markup_concat(head, middle);
    lemma_tokens_markup_concat(head + middle, tail);
    let text_part = if body == pos + 2 {
        tokens[pos + 1]->text
    } else {
        Seq::<char>::empty()
    };
    assert(tokens_markup(head) == token_markup(tokens[pos]) + text_part) by {
        lemma_tokens_markup_one(tokens[pos]);
        if body == pos + 2 {
            assert(head =~= seq![tokens[pos]] + seq![tokens[pos + 1]]);
            lemma_tokens_markup_concat(seq![tokens[pos]], seq![tokens[pos + 1]]);
            lemma_tokens_markup_one(tokens[pos + 1]);
        } else {
            assert(head =~= seq![tokens[pos]]);
            assert(token_markup(tokens[pos]) + text_part =~= token_markup(tokens[pos]));
        }
    }
    if next == after + 1 {
        assert(tail =~= seq![tokens[after]]);
        lemma_tokens_markup_one(tokens[after]);
    } else {
        assert(tail =~= Seq::<TokenView>::empty());
    }
}

/// A node is written as the tokens were from which it was read.
proof fn lemma_markup_of_node(tokens: Seq<TokenView>, pos: int, settings: LoadSettings)
    requires
        0 <= pos <= tokens.len(),
    ensures
        node_at(tokens, pos, settings) matches Some((node, next)) ==> node_markup(node)
            == tokens_markup(tokens.subrange(pos, next)),
    decreases tokens.len() - pos, 0int,
{
    if pos < tokens.len() {
        match tokens[pos] {
            TokenView::Start { name, attrs } => {
                let tag = opening_tag_of(name, attrs);
                let has_text = text_at(tokens, pos + 1);
                let body = if has_text {
                    pos + 2
                } else {
                    pos + 1
                };
                lemma_markup_of_nodes(tokens, body, settings);
                lemma_reading_advances(tokens, body, settings);
                let (kids, after) = nodes_from(tokens, body, settings);
                let closed = closes_at(tokens, after, tag.name);
                let next = if closed {
                    after + 1
                } else {
                    after
                };
                let text = if has_text {
                    Some(tokens[pos + 1]->text)
                } else {
                    None
                };
                let read = node_at(tokens, pos, settings)->0;
                assert(read == (element_of(tag, text, kids, closed, settings), next));
                lemma_element_markup(tag, text, kids, closed, settings);
                lemma_element_tokens_markup(tokens, pos, body, after, next);
            },
            TokenView::Text { text } => {
                assert(tokens.subrange(pos, pos + 1) =~= seq![tokens[pos]]);
                lemma_tokens_markup_one(tokens[pos]);
                lemma_text_node_markup(text);
            },
            TokenView::Empty { name } => {
                assert(tokens.subrange(pos, pos + 1) =~= seq![tokens[pos]]);
                lemma_tokens_markup_one(tokens[pos]);
                let read = node_at(tokens, pos, settings)->0;
                let node = read.0;
                assert(children_markup(node.children) =~= Seq::<char>::empty());
                assert(node_markup(node) =~= opening_markup(node.start->0));
            },
            TokenView::End { .. } => {},
        }
    }
}

/// A tree is written as the tokens were from which it was built: those
/// from the first up to the place where the reading of nodes stopped.
pub proof fn lemma_markup_of_tree(tokens: Seq<TokenView>, settings: LoadSettings)
    ensures
        tree_of(tokens, settings) matches Some(tree) ==> node_markup(tree) == tokens_markup(
            tokens.take(nodes_from(tokens, 0, settings).1),
        ),
{
    lemma_markup_of_nodes(tokens, 0, settings);
    lemma_reading_advances(tokens, 0, settings);
    let end = nodes_from(tokens, 0, settings).1;
    assert(tokens.take(end) =~= tokens.subrange(0, end));
    match tree_of(tokens, settings) {
        Some(tree) => {
            assert(node_markup(tree) =~= children_markup(tree.children));
        },
        None => {},
    }
}

/// In well-formed tokens the reading of a run of nodes stops only at the
/// closing tag of the innermost open element, or at the end where no
/// element is open; and what follows that closing tag is well formed inside
/// the elements that are still open.
pub proof fn lemma_well_formed_reading(
    tokens: Seq<TokenView>,
    pos: int,
    open: Seq<Seq<char>>,
    settings: LoadSettings,
)
    requires
        0 <= pos <= tokens.len(),
        well_formed_from(tokens, pos, open),
    ensures
        node_at(tokens, pos, settings) matches Some((node, next)) ==> well_formed_from(
            tokens,
            next,
            open,
        ),
        open.len() == 0 ==> nodes_from(tokens, pos, settings).1 == tokens.len(),
        open.len() > 0 ==> closes_at(tokens, nodes_from(tokens, pos, settings).1, open.last())
            && well_formed_from(
            tokens,
            nodes_from(tokens, pos, settings).1 + 1,
            open.drop_last(),
        ),
    decreases tokens.len() - pos, 1int,
{
    lemma_well_formed_node(tokens, pos, open, settings);
    lemma_reading_advances(tokens, pos, settings);
    match node_at(tokens, pos, settings) {
        Some((node, next)) => {
            lemma_well_formed_reading(tokens, next, open, settings);
        },
        None => {},
    }
}

/// In well-formed tokens an element is read up to and with its closing tag.
proof fn lemma_well_formed_node(
    tokens: Seq<TokenView>,
    pos: int,
    open: Seq<Seq<char>>,
    settings: LoadSettings,
)
    requires
        0 <= pos <= tokens.len(),
        well_formed_from(tokens, pos, open),
    ensures
        node_at(tokens, pos, settings) matches Some((node, next)) ==> well_formed_from(
            tokens,
            next,
            open,
        ),
    decreases tokens.len() - pos, 0int,
{
    if pos < tokens.len() {
        match tokens[pos] {
            TokenView::Start { name, attrs } => {
                let tag = opening_tag_of(name, attrs);
                let inside = open.push(tag.name);
                let body = if text_at(tokens, pos + 1) {
                    pos + 2
                } else {
                    pos + 1
                };
                assert(well_formed_from(tokens, pos + 1, inside));
                assert(well_formed_from(tokens, body, inside));
                lemma_well_formed_reading(tokens, body, inside, settings);
                assert(inside.last() == tag.name);
                assert(inside.drop_last() =~= open);
            },
            _ => {},
        }
    }
}

/// Round trip: the tree of a well-formed document is written out as the
/// tokens of the document, all of them, in their order. Text is written as
/// it was kept after normalizing; a tag is written with its name and with
/// its attributes' values joined by single spaces.
pub proof fn lemma_round_trip(tokens: Seq<TokenView>, settings: LoadSettings)
    requires
        well_formed(tokens),
        tokens.len() > 0,
    ensures
        tree_of(tokens, settings) is Some,
        node_markup(tree_of(tokens, settings)->0) == tokens_markup(tokens),
{
    lemma_well_formed_reading(tokens, 0, Seq::empty(), settings);
    lemma_markup_of_tree(tokens, settings);
    assert(tokens.take(tokens.len() as int) =~= tokens);
    assert(node_at(tokens, 0, settings) is Some);
}

} // verus!
