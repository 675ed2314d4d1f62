//! From a sequence of tokens to a tree of nodes.
//!
//! The tokens are read from left to right by recursive descent. A token is
//! looked at before it is taken: a closing tag that does not match the
//! element that is open stays where it is, for an element further out to
//! match it.

use crate::attribute::Attribute;
use crate::attribute::AttributeView;
use crate::attribute::OpeningTag;
use crate::attribute::OpeningTagView;
use crate::node::Children;
use crate::node::Node;
use crate::node::NodeView;
use crate::node::stored;
use crate::node::text_node;
use crate::settings::LoadSettings;
use crate::text::first_word;
use crate::text::first_word_of;
use crate::text::str_eq;
use crate::text::words;
use crate::token::Token;
use crate::token::TokenView;
use crate::token::tokenize;
use crate::token::tokens_of;
use crate::tokenizer::LoadError;
use crate::tokenizer::markup_script;
use crate::tokenizer::read_events;
use crate::tokenizer::script_events;
use vstd::prelude::*;

verus! {

/// The attribute that a name and a value as written in a tag stand for: the
/// value is split at white space into its tokens.
pub open spec fn attribute_of(source: (Seq<char>, Seq<char>)) -> AttributeView {
    AttributeView { name: source.0, values: words(source.1) }
}

/// The opening tag that a start token stands for: its name is the first word
/// of the token's name.
pub open spec fn opening_tag_of(
    name: Seq<char>,
    attrs: Seq<(Seq<char>, Seq<char>)>,
) -> OpeningTagView {
    OpeningTagView {
        self_closing: false,
        name: first_word(name),
        attrs: attrs.map_values(|a: (Seq<char>, Seq<char>)| attribute_of(a)),
    }
}

/// The opening tag that a self-closing token stands for. It has no
/// attributes.
pub open spec fn empty_tag_of(name: Seq<char>) -> OpeningTagView {
    OpeningTagView { self_closing: true, name: first_word(name), attrs: Seq::empty() }
}

/// Whether the token at `pos` is a run of text.
pub open spec fn text_at(tokens: Seq<TokenView>, pos: int) -> bool {
    0 <= pos < tokens.len() && tokens[pos] is Text
}

/// Whether the token at `pos` is the closing tag of an element named `name`.
pub open spec fn closes_at(tokens: Seq<TokenView>, pos: int, name: Seq<char>) -> bool {
    &&& 0 <= pos < tokens.len()
    &&& tokens[pos] is End
    &&& tokens[pos]->End_name == name
}

/// The element that a start token and what follows it make.
///
/// `text` is the run of text that stood directly behind the opening tag, if
/// one did; `kids` are the nodes that were read after it; `closed` says
/// whether the element's closing tag came next. The text becomes the first
/// child where there are other children or where the settings ask for it;
/// else it stays in the element itself.
pub open spec fn element_of(
    tag: OpeningTagView,
    text: Option<Seq<char>>,
    kids: Seq<NodeView>,
    closed: bool,
    settings: LoadSettings,
) -> NodeView {
    let hoist = text is Some && (kids.len() > 0 || settings.separates_all_text());
    NodeView {
        start: Some(tag),
        text: if hoist {
            None
        } else {
            text
        },
        end: if closed {
            Some(tag.name)
        } else {
            None
        },
        children: stored(
            if hoist {
                seq![text_node(text->0)] + kids
            } else {
                kids
            },
            settings.shares_children(),
        ),
    }
}

/// The node that begins at `pos`, with the position of the first token
/// behind it; or nothing, where the tokens have come to their end or the
/// token at `pos` is a closing tag.
pub open spec fn node_at(tokens: Seq<TokenView>, pos: int, settings: LoadSettings) -> Option<
    (NodeView, int),
>
    decreases tokens.len() - pos, 0int,
{
    if pos < 0 || pos >= tokens.len() {
        None
    } else {
        match tokens[pos] {
            TokenView::Start { name, attrs } => {
                let tag = opening_tag_of(name, attrs);
                let text = if text_at(tokens, pos + 1) {
                    Some(tokens[pos + 1]->text)
                } else {
                    None
                };
                let body = if text_at(tokens, pos + 1) {
                    pos + 2
                } else {
                    pos + 1
                };
                let (kids, after) = nodes_from(tokens, body, settings);
                let closed = closes_at(tokens, after, tag.name);
                Some(
                    (
                        element_of(tag, text, kids, closed, settings),
                        if closed {
                            after + 1
                        } else {
                            after
                        },
                    ),
                )
            },
            TokenView::Text { text } => Some((text_node(text), pos + 1)),
            TokenView::Empty { name } => Some(
                (
                    NodeView {
                        start: Some(empty_tag_of(name)),
                        text: None,
                        end: None,
                        children: Seq::empty(),
                    },
                    pos + 1,
                ),
            ),
            TokenView::End { .. } => None,
        }
    }
}

/// The nodes that follow one another from `pos` on, up to the first place
/// where no node begins, and that place.
///
/// A node takes at least one token and none behind the last
/// (`lemma_reading_advances`), so the case of a node that does not is never
/// met: it is there for the recursion to be well founded on the face of it.
pub open spec fn nodes_from(tokens: Seq<TokenView>, pos: int, settings: LoadSettings) -> (
    Seq<NodeView>,
    int,
)
    decreases tokens.len() - pos, 1int,
{
    match node_at(tokens, pos, settings) {
        Some((node, next)) => if pos < next <= tokens.len() {
            let (rest, end) = nodes_from(tokens, next, settings);
            (seq![node] + rest, end)
        } else {
            (seq![node], next)
        },
        None => (Seq::empty(), pos),
    }
}

/// The tree of a document: a root without tags or text, whose children are
/// the nodes read from the first token on; or nothing, where there is no
/// such node.
pub open spec fn tree_of(tokens: Seq<TokenView>, settings: LoadSettings) -> Option<NodeView> {
    let nodes = nodes_from(tokens, 0, settings).0;
    if nodes.len() == 0 {
        None
    } else {
        Some(
            NodeView {
                start: None,
                text: None,
                end: None,
                children: stored(nodes, settings.shares_children()),
            },
        )
    }
}

/// A node takes at least one token and never more than there are, and a run
/// of nodes ends at or behind the place where it began.
pub proof fn lemma_reading_advances(tokens: Seq<TokenView>, pos: int, settings: LoadSettings)
    requires
        0 <= pos <= tokens.len(),
    ensures
        node_at(tokens, pos, settings) matches Some((_, next)) ==> pos < next <= tokens.len(),
        pos <= nodes_from(tokens, pos, settings).1 <= tokens.len(),
        node_at(tokens, nodes_from(tokens, pos, settings).1, settings) is None,
    decreases tokens.len() - pos, 1int,
{
    lemma_node_advances(tokens, pos, settings);
    match node_at(tokens, pos, settings) {
        Some((_, next)) => {
            lemma_reading_advances(tokens, next, settings);
        },
        None => {},
    }
}

/// A node takes at least one token and never more than there are.
proof fn lemma_node_advances(tokens: Seq<TokenView>, pos: int, settings: LoadSettings)
    requires
        0 <= pos <= tokens.len(),
    ensures
        node_at(tokens, pos, settings) matches Some((_, next)) ==> pos < next <= tokens.len(),
    decreases tokens.len() - pos, 0int,
{
    if pos < tokens.len() {
        match tokens[pos] {
            TokenView::Start { name, attrs } => {
                let body = if text_at(tokens, pos + 1) {
                    pos + 2
                } else {
                    pos + 1
                };
                lemma_reading_advances(tokens, body, settings);
            },
            _ => {},
        }
    }
}

/// The attributes of a start token, each with its value split into tokens.
fn attributes_of(sources: &Vec<(String, String)>) -> (r: Vec<Attribute>)
    ensures
        r.deep_view() == sources.deep_view().map_values(
            |a: (Seq<char>, Seq<char>)| attribute_of(a),
        ),
{
    let mut attrs: Vec<Attribute> = Vec::new();
    let mut i: usize = 0;
    while i < sources.len()
        invariant
            i <= sources.len(),
            attrs.len() == i,
            forall|j: int|
                0 <= j < i ==> (#[trigger] attrs@[j])@ == attribute_of(sources.deep_view()[j]),
        decreases sources.len() - i,
    {
        let attr = Attribute::from_name_and_str_values(
            sources[i].0.clone(),
            sources[i].1.as_str(),
        );
        attrs.push(attr);
        i += 1;
    }
    assert(attrs.deep_view() =~= sources.deep_view().map_values(
        |a: (Seq<char>, Seq<char>)| attribute_of(a),
    ));
    attrs
}

/// Reads the nodes that follow one another from `pos` on.
fn next_nodes(tokens: &Vec<Token>, pos: usize, settings: &LoadSettings) -> (r: (Vec<Node>, usize))
    requires
        pos <= tokens.len(),
    ensures
        r.0.deep_view() == nodes_from(tokens.deep_view(), pos as int, *settings).0,
        r.1 == nodes_from(tokens.deep_view(), pos as int, *settings).1,
        pos <= r.1 <= tokens.len(),
    decreases tokens.len() - pos, 1int,
{
    let ghost all = tokens.deep_view();
    let mut nodes: Vec<Node> = Vec::new();
    let mut cur: usize = pos;
    loop
        invariant
            pos <= cur <= tokens.len(),
            all == tokens.deep_view(),
            nodes_from(all, pos as int, *settings) == (
                nodes.deep_view() + nodes_from(all, cur as int, *settings).0,
                nodes_from(all, cur as int, *settings).1,
            ),
        decreases tokens.len() - cur,
    {
        proof {
            lemma_reading_advances(all, cur as int, *settings);
        }
        match next_node(tokens, cur, settings) {
            Some((node, next)) => {
                let ghost before = nodes.deep_view();
                nodes.push(node);
                proof {
                    let rest = nodes_from(all, next as int, *settings).0;
                    assert(nodes.deep_view() =~= before.push(node@));
                    assert(before + (seq![node@] + rest) =~= before.push(node@) + rest);
                }
                cur = next;
            },
            None => {
                assert(nodes.deep_view() + Seq::<NodeView>::empty() =~= nodes.deep_view());
                return (nodes, cur);
            },
        }
    }
}

/// Reads the node that begins at `pos`, if one does, and says where the
/// next one would begin.
fn next_node(tokens: &Vec<Token>, pos: usize, settings: &LoadSettings) -> (r: Option<
    (Node, usize),
>)
    requires
        pos <= tokens.len(),
    ensures
        match r {
            Some((node, next)) => node_at(tokens.deep_view(), pos as int, *settings) == Some(
                (node@, next as int),
            ) && pos < next <= tokens.len(),
            None => node_at(tokens.deep_view(), pos as int, *settings) is None,
        },
    decreases tokens.len() - pos, 0int,
{
    if pos >= tokens.len() {
        return None;
    }
    let ghost all = tokens.deep_view();
    assert(all[pos as int] == tokens@[pos as int]@);
    match &tokens[pos] {
        Token::Start { name, attrs } => {
            let tag_name = first_word_of(name.as_str());
            let tag = OpeningTag::new(tag_name.clone(), false, attributes_of(attrs));
            let mut text: Option<String> = None;
            let mut body: usize = pos + 1;
            if pos + 1 < tokens.len() {
                assert(all[pos + 1] == tokens@[pos + 1]@);
                if let Token::Text { text: run } = &tokens[pos + 1] {
                    text = Some(run.clone());
                    body = pos + 2;
                }
            }
            let (mut kids, after) = next_nodes(tokens, body, settings);
            let ghost kid_views = kids.deep_view();
            let ghost text_view = text.deep_view();
            if text.is_some() && (kids.len() > 0 || settings.separates_text()) {
                let first = Node::assemble(None, text, None, Children::default());
                kids.insert(0, first);
                assert(kids.deep_view() =~= seq![text_node(text_view->0)] + kid_views);
                text = None;
            }
            let children = Children::iter_to(&settings.storage(), kids);
            let mut end: Option<String> = None;
            let mut next: usize = after;
            if after < tokens.len() {
                assert(all[after as int] == tokens@[after as int]@);
                if let Token::End { name: closing } = &tokens[after] {
                    if str_eq(closing.as_str(), tag_name.as_str()) {
                        end = Some(closing.clone());
                        next = after + 1;
                    }
                }
            }
            let node = Node::assemble(Some(tag), text, end, children);
            Some((node, next))
        },
        Token::Text { text } => {
            let node = Node::assemble(None, Some(text.clone()), None, Children::default());
            Some((node, pos + 1))
        },
        Token::Empty { name } => {
            let tag = OpeningTag::new(first_word_of(name.as_str()), true, Vec::new());
            assert(tag@.attrs =~= Seq::empty());
            let node = Node::assemble(Some(tag), None, None, Children::default());
            Some((node, pos + 1))
        },
        Token::End { .. } => None,
    }
}

/// The tokens of a document, from its text: what the tokenizer reads in it,
/// normalized and decoded. It fails where the tokenizer fails, or where it
/// hands out bytes that are not UTF-8.
pub open spec fn document_tokens(html: Seq<char>) -> Result<Seq<TokenView>, ()> {
    match script_events(markup_script(html)) {
        Some(events) => tokens_of(events),
        None => Err(()),
    }
}

impl Node {
    /// Load node tree from the text of a document.
    ///
    /// The root node has no start, end or text elements: it only has
    /// children. For a text that holds no node, such as an empty one or one
    /// of white space only, there is no tree. Where the tokenizer fails, its
    /// error is handed on and no part of a tree is returned.
    pub fn from_html(html: &str, settings: &LoadSettings) -> (r: Result<Option<Node>, LoadError>)
        ensures
            match r {
                Ok(tree) => document_tokens(html@) is Ok && tree.deep_view() == tree_of(
                    document_tokens(html@)->Ok_0,
                    *settings,
                ),
                Err(LoadError::Malformed(_)) => script_events(markup_script(html@)) is None,
                Err(LoadError::NotUtf8(_)) => script_events(markup_script(html@)) is Some
                    && document_tokens(html@) is Err,
            },
    {
        match read_events(html) {
            Ok(events) => match tokenize(&events) {
                Ok(tokens) => Ok(Node::from_tokens(&tokens, settings)),
                Err(e) => Err(e),
            },
            Err(e) => Err(e),
        }
    }

    /// Builds the tree of a document from its tokens.
    ///
    /// The root has no tags and no text: it only holds the nodes of the
    /// document as its children. Where the tokens yield no node, there is no
    /// tree.
    pub fn from_tokens(tokens: &Vec<Token>, settings: &LoadSettings) -> (r: Option<Node>)
        ensures
            r.deep_view() == tree_of(tokens.deep_view(), *settings),
    {
        let (nodes, _) = next_nodes(tokens, 0, settings);
        if nodes.len() == 0 {
            None
        } else {
            let children = Children::iter_to(&settings.storage(), nodes);
            Some(Node::assemble(None, None, None, children))
        }
    }
}

} // verus!
