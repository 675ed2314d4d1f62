//! The text of a tree: what a node looks like when it is written out.

use crate::attribute::AttributeView;
use crate::attribute::OpeningTagView;
use crate::builder::empty_tag_of;
use crate::builder::opening_tag_of;
use crate::node::ChildView;
use crate::node::NodeView;
use crate::text::first_word;
use crate::text::join_words;
use crate::token::TokenView;
use vstd::prelude::*;

verus! {

/// An attribute as it is written in a tag: a space, the name, and the value
/// in double quotes, its tokens joined by single spaces.
pub open spec fn attribute_markup(a: AttributeView) -> Seq<char> {
    " "@ + a.name + "=\""@ + join_words(a.values) + "\""@
}

/// The attributes as they are written in a tag, one after the other.
pub open spec fn attributes_markup(attrs: Seq<AttributeView>) -> Seq<char>
    decreases attrs.len(),
{
    if attrs.len() == 0 {
        Seq::empty()
    } else {
        attributes_markup(attrs.drop_last()) + attribute_markup(attrs.last())
    }
}

/// An opening tag as it is written.
pub open spec fn opening_markup(t: OpeningTagView) -> Seq<char> {
    "<"@ + t.name + attributes_markup(t.attrs) + (if t.self_closing {
        "/"@
    } else {
        Seq::empty()
    }) + ">"@
}

/// A closing tag as it is written.
pub open spec fn closing_markup(name: Seq<char>) -> Seq<char> {
    "</"@ + name + ">"@
}

/// A node as it is written: its opening tag, its text, its children and its
/// closing tag, as far as it has them.
pub open spec fn node_markup(n: NodeView) -> Seq<char>
    decreases n,
{
    (match n.start {
        Some(t) => opening_markup(t),
        None => Seq::empty(),
    }) + (match n.text {
        Some(text) => text,
        None => Seq::empty(),
    }) + children_markup(n.children) + (match n.end {
        Some(name) => closing_markup(name),
        None => Seq::empty(),
    })
}

/// The children as they are written, one after the other.
pub open spec fn children_markup(children: Seq<ChildView>) -> Seq<char>
    decreases children,
{
    if children.len() == 0 {
        Seq::empty()
    } else {
        children_markup(children.drop_last()) + node_markup(children.last().node)
    }
}

/// A token as the tree writes it out: a tag with the name and the
/// attributes that the tree keeps of it, or a run of text as it is.
pub open spec fn token_markup(t: TokenView) -> Seq<char> {
    match t {
        TokenView::Start { name, attrs } => opening_markup(opening_tag_of(name, attrs)),
        TokenView::End { name } => closing_markup(name),
        TokenView::Empty { name } => opening_markup(empty_tag_of(name)),
        TokenView::Text { text } => text,
    }
}

/// The tokens as the tree writes them out, one after the other.
pub open spec fn tokens_markup(tokens: Seq<TokenView>) -> Seq<char>
    decreases tokens.len(),
{
    if tokens.len() == 0 {
        Seq::empty()
    } else {
        tokens_markup(tokens.drop_last()) + token_markup(tokens.last())
    }
}

/// Whether the tokens from `from` on are well formed inside the elements
/// that are open: `open` holds their names, the innermost last. Every
/// closing tag must name the innermost open element, and at the end no
/// element may be left open.
pub open spec fn well_formed_from(tokens: Seq<TokenView>, from: int, open: Seq<Seq<char>>) -> bool
    decreases tokens.len() - from,
{
    if from < 0 || from >= tokens.len() {
        open.len() == 0
    } else {
        match tokens[from] {
            TokenView::Start { name, .. } => well_formed_from(
                tokens,
                from + 1,
                open.push(first_word(name)),
            ),
            TokenView::End { name } => open.len() > 0 && open.last() == name && well_formed_from(
                tokens,
                from + 1,
                open.drop_last(),
            ),
            _ => well_formed_from(tokens, from + 1, open),
        }
    }
}

/// Whether the tokens are those of a well-formed document: every opening
/// tag has its closing tag, or is self-closing, and tags are closed in the
/// reverse of the order in which they were opened.
pub open spec fn well_formed(tokens: Seq<TokenView>) -> bool {
    well_formed_from(tokens, 0, Seq::empty())
}

} // verus!
