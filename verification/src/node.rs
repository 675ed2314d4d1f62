//! The nodes of a document tree, and the two ways in which a node holds its
//! children: owned, or behind a reference-counted pointer.

use crate::attribute::Attribute;
use crate::attribute::AttributeView;
use crate::attribute::OpeningTag;
use crate::attribute::OpeningTagView;
use crate::attribute::attribute_position;
use crate::attribute::attributes_overwritten;
use crate::markup::attribute_markup;
use crate::markup::attributes_markup;
use crate::markup::children_markup;
use crate::markup::node_markup;
use crate::markup::opening_markup;
use crate::settings::ChildrenType;
use std::ops::Deref;
use std::ops::DerefMut;
use std::sync::Arc;
use vstd::prelude::*;
use vstd::std_specs::cmp::PartialEqSpecImpl;
use vstd::std_specs::iter::IteratorSpec;
use vstd::string::*;

verus! {

/// What a node holds, whatever way it is stored in.
pub struct NodeView {
    /// The opening tag; none for a text node and for the root.
    pub start: Option<OpeningTagView>,
    /// The text that the node itself carries.
    pub text: Option<Seq<char>>,
    /// The name in the closing tag, where one was matched.
    pub end: Option<Seq<char>>,
    /// The children in document order.
    pub children: Seq<ChildView>,
}

/// A child as its parent holds it: the node, and whether it sits behind a
/// shared pointer.
pub struct ChildView {
    pub shared: bool,
    pub node: NodeView,
}

/// Children of the node: all the nodes that stand directly inside it, in
/// document order.
#[derive(Debug)]
pub struct Children(Vec<NodeAccess>);

/// How a node is stored and reached.
#[derive(Debug)]
pub enum NodeAccess {
    /// The node is owned, and can always be changed.
    Owned(Node),
    /// The node sits behind a reference-counted pointer, and can be changed
    /// only while no other pointer to it is alive.
    Sharable(Arc<Node>),
}

/// An element with its opening and closing tags, a run of text, or the root
/// of a document.
#[derive(Debug)]
pub struct Node {
    start: Option<OpeningTag>,
    text: Option<String>,
    end: Option<String>,
    children: Children,
}

/// Whether no node below `n` sits behind a shared pointer.
pub open spec fn all_owned(n: NodeView) -> bool
    decreases n,
{
    forall|i: int|
        0 <= i < n.children.len() ==> !(#[trigger] n.children[i]).shared && all_owned(
            n.children[i].node,
        )
}

/// A node without tags, text or children.
pub open spec fn empty_node() -> NodeView {
    NodeView { start: None, text: None, end: None, children: Seq::empty() }
}

/// A node that is nothing but a run of text.
pub open spec fn text_node(text: Seq<char>) -> NodeView {
    NodeView { start: None, text: Some(text), end: None, children: Seq::empty() }
}

/// The children as a parent holds them under one way of storing.
pub open spec fn stored(nodes: Seq<NodeView>, shared: bool) -> Seq<ChildView> {
    nodes.map_values(|node: NodeView| ChildView { shared, node })
}

/// The children with each of them stored the given way.
pub open spec fn restored(children: Seq<ChildView>, shared: bool) -> Seq<ChildView> {
    children.map_values(|c: ChildView| ChildView { shared, node: c.node })
}

impl Children {
    /// The children's views.
    pub closed spec fn model(self) -> Seq<ChildView>
        decreases self,
    {
        Seq::new(
            self.0@.len(),
            |i: int|
                if 0 <= i < self.0@.len() {
                    self.0@[i].model()
                } else {
                    arbitrary()
                },
        )
    }
}

impl NodeAccess {
    /// The node, whichever way it is stored.
    pub open spec fn node(self) -> Node {
        match self {
            NodeAccess::Owned(n) => n,
            NodeAccess::Sharable(n) => *n,
        }
    }

    /// The view of the node with the way it is stored.
    pub closed spec fn model(self) -> ChildView
        decreases self,
    {
        match self {
            NodeAccess::Owned(n) => ChildView { shared: false, node: n.model() },
            NodeAccess::Sharable(n) => ChildView { shared: true, node: (*n).model() },
        }
    }
}

impl Node {
    /// The view of the node.
    pub closed spec fn model(self) -> NodeView
        decreases self,
    {
        NodeView {
            start: self.start.deep_view(),
            text: self.text.deep_view(),
            end: self.end.deep_view(),
            children: self.children.model(),
        }
    }

    /// The children themselves, in order.
    pub closed spec fn child_list(self) -> Seq<NodeAccess> {
        self.children.0@
    }

    /// All the nodes below this one, as the tree holds them, in document
    /// order: each child, followed by all that is below it, before the next
    /// child.
    pub closed spec fn below(self) -> Seq<NodeAccess>
        decreases self,
    {
        listing(self.children.0@)
    }
}

/// The nodes of `children` in document order, each followed by all that is
/// below it.
#[verifier::opaque]
pub open spec fn listing(children: Seq<NodeAccess>) -> Seq<NodeAccess>
    decreases children,
{
    if children.len() == 0 {
        Seq::empty()
    } else {
        listing(children.drop_last()) + seq![children.last()] + children.last().node().below()
    }
}

/// What is below a node is the listing of its children.
pub proof fn lemma_below(node: Node)
    ensures
        node.below() == listing(node.child_list()),
{
    reveal(listing);
}

/// The listing of no children is empty, and the listing of some children
/// ends with the last child and all that is below it.
pub proof fn lemma_listing(children: Seq<NodeAccess>)
    ensures
        listing(children) == if children.len() == 0 {
            Seq::empty()
        } else {
            listing(children.drop_last()) + seq![children.last()] + children.last().node().below()
        },
{
    reveal(listing);
}

impl View for Children {
    type V = Seq<NodeAccess>;

    closed spec fn view(&self) -> Seq<NodeAccess> {
        self.0@
    }
}

impl DeepView for Children {
    type V = Seq<ChildView>;

    open spec fn deep_view(&self) -> Seq<ChildView> {
        self.model()
    }
}

impl View for NodeAccess {
    type V = ChildView;

    open spec fn view(&self) -> ChildView {
        self.model()
    }
}

impl DeepView for NodeAccess {
    type V = ChildView;

    open spec fn deep_view(&self) -> ChildView {
        self.model()
    }
}

impl View for Node {
    type V = NodeView;

    open spec fn view(&self) -> NodeView {
        self.model()
    }
}

impl DeepView for Node {
    type V = NodeView;

    open spec fn deep_view(&self) -> NodeView {
        self.model()
    }
}

/// The view of a list of children is the list of their views.
pub proof fn lemma_children_model(children: Children)
    ensures
        children.deep_view().len() == children@.len(),
        forall|i: int|
            0 <= i < children@.len() ==> children.deep_view()[i] == (#[trigger] children@[i])@,
{
}

/// The view of a stored node says how it is stored and what the node holds.
pub proof fn lemma_access_model(access: NodeAccess)
    ensures
        access@.shared == (access is Sharable),
        access@.node == access.node()@,
{
}

/// A node's children, seen through its view, are the views of its children.
pub proof fn lemma_node_children(node: Node)
    ensures
        node@.children.len() == node.child_list().len(),
        forall|i: int|
            0 <= i < node.child_list().len() ==> node@.children[i] == (
            #[trigger] node.child_list()[i])@,
{
}

/// A child is smaller than its parent, and so is the node it holds: what
/// goes down a tree comes to an end.
pub proof fn lemma_children_decrease(node: Node, i: int)
    requires
        0 <= i < node.child_list().len(),
    ensures
        decreases_to!(node => node.child_list()[i]),
        decreases_to!(node => node.child_list()[i].node()),
{
}

/// `Arc::get_mut`: access to the node if no other pointer to it is alive.
/// Whatever is returned, the pointer still leads to the node, with the
/// changes that were made through the access.
#[verifier::external_body]
fn arc_get_mut(arc: &mut Arc<Node>) -> (r: Option<&mut Node>)
    ensures
        match r {
            Some(n) => *n == **old(arc) && **final(arc) == *final(n),
            None => *final(arc) == *old(arc),
        },
{
    Arc::get_mut(arc)
}

/// `Arc::clone`: another pointer to the same node.
#[verifier::external_body]
fn arc_share(arc: &Arc<Node>) -> (r: Arc<Node>)
    ensures
        r == *arc,
{
    Arc::clone(arc)
}

/// `Arc::ptr_eq`: whether the two pointers lead to the same allocation. Two
/// pointers that do lead to one node; of two that do not, nothing is known.
#[verifier::external_body]
fn arc_ptr_eq(a: &Arc<Node>, b: &Arc<Node>) -> (r: bool)
    ensures
        r ==> *a == *b,
{
    Arc::ptr_eq(a, b)
}

impl Default for Children {
    fn default() -> (r: Children)
        ensures
            r@ == Seq::<NodeAccess>::empty(),
            r.deep_view() == Seq::<ChildView>::empty(),
    {
        let r = Children(Vec::new());
        assert(r.deep_view() =~= Seq::<ChildView>::empty());
        r
    }
}

impl Deref for Children {
    type Target = Vec<NodeAccess>;

    fn deref(&self) -> (r: &Vec<NodeAccess>)
        ensures
            r@ == self@,
    {
        &self.0
    }
}

impl DerefMut for Children {
    fn deref_mut(&mut self) -> (r: &mut Vec<NodeAccess>)
        ensures
            r@ == old(self)@,
            final(self)@ == final(r)@,
    {
        &mut self.0
    }
}

impl IntoIterator for Children {
    type Item = NodeAccess;

    type IntoIter = std::vec::IntoIter<NodeAccess>;

    fn into_iter(self) -> (r: std::vec::IntoIter<NodeAccess>)
        ensures
            r.remaining() == self@,
    {
        self.0.into_iter()
    }
}

impl Clone for Children {
    /// Owned children are copied; shared children are shared once more.
    fn clone(&self) -> (r: Children)
        ensures
            r.deep_view() == self.deep_view(),
    {
        self.duplicate()
    }
}

impl PartialEq for Children {
    /// Child by child, as [`NodeAccess`] compares.
    fn eq(&self, other: &Children) -> (r: bool)
        ensures
            r ==> self.deep_view() == other.deep_view(),
            (forall|i: int|
                0 <= i < self.deep_view().len() ==> !(#[trigger] self.deep_view()[i]).shared
                    && all_owned(self.deep_view()[i].node)) ==> r == (self.deep_view()
                == other.deep_view()),
    {
        self.same(other)
    }
}

impl PartialEqSpecImpl for Children {
    open spec fn obeys_eq_spec() -> bool {
        false
    }

    open spec fn eq_spec(&self, other: &Children) -> bool {
        self.deep_view() == other.deep_view()
    }
}

impl Children {
    /// The nodes as owned children.
    fn iter_to_owned(nodes: Vec<Node>) -> (r: Children)
        ensures
            r.deep_view() == stored(nodes.deep_view(), false),
    {
        let ghost views = nodes.deep_view();
        let mut arr: Vec<NodeAccess> = Vec::new();
        for child in it: nodes
            invariant
                it.seq().len() == views.len(),
                forall|j: int| 0 <= j < views.len() ==> (#[trigger] it.seq()[j])@ == views[j],
                arr@.len() == it.index(),
                forall|j: int|
                    0 <= j < arr@.len() ==> (#[trigger] arr@[j])@ == (ChildView {
                        shared: false,
                        node: views[j],
                    }),
        {
            arr.push(NodeAccess::new_owned(child));
        }
        let r = Children(arr);
        assert(r.deep_view() =~= stored(views, false));
        r
    }

    /// The nodes as children behind shared pointers.
    fn iter_to_shared(nodes: Vec<Node>) -> (r: Children)
        ensures
            r.deep_view() == stored(nodes.deep_view(), true),
    {
        let ghost views = nodes.deep_view();
        let mut arr: Vec<NodeAccess> = Vec::new();
        for child in it: nodes
            invariant
                it.seq().len() == views.len(),
                forall|j: int| 0 <= j < views.len() ==> (#[trigger] it.seq()[j])@ == views[j],
                arr@.len() == it.index(),
                forall|j: int|
                    0 <= j < arr@.len() ==> (#[trigger] arr@[j])@ == (ChildView {
                        shared: true,
                        node: views[j],
                    }),
        {
            arr.push(NodeAccess::new_shared(child));
        }
        let r = Children(arr);
        assert(r.deep_view() =~= stored(views, true));
        r
    }

    /// The nodes as children, stored the way that `children_type` names.
    pub(crate) fn iter_to(children_type: &ChildrenType, nodes: Vec<Node>) -> (r: Children)
        ensures
            r.deep_view() == stored(nodes.deep_view(), *children_type == ChildrenType::Sharable),
    {
        match children_type {
            ChildrenType::Owned => Children::iter_to_owned(nodes),
            ChildrenType::Sharable => Children::iter_to_shared(nodes),
        }
    }

    /// Get sharable children by cloning data.
    pub fn to_sharable(&self) -> (r: Self)
        ensures
            r.deep_view() == restored(self.deep_view(), true),
    {
        let mut vec: Vec<NodeAccess> = Vec::new();
        let mut i: usize = 0;
        while i < self.0.len()
            invariant
                i <= self.0.len(),
                vec@.len() == i,
                forall|j: int|
                    0 <= j < i ==> (#[trigger] vec@[j])@ == (ChildView {
                        shared: true,
                        node: self.0@[j]@.node,
                    }),
            decreases self.0.len() - i,
        {
            vec.push(self.0[i].to_sharable());
            i += 1;
        }
        let r = Children(vec);
        assert(r.deep_view() =~= restored(self.deep_view(), true));
        r
    }

    /// Get owned children by cloning data.
    pub fn to_owned(&self) -> (r: Self)
        ensures
            r.deep_view() == restored(self.deep_view(), false),
    {
        let mut vec: Vec<NodeAccess> = Vec::new();
        let mut i: usize = 0;
        while i < self.0.len()
            invariant
                i <= self.0.len(),
                vec@.len() == i,
                forall|j: int|
                    0 <= j < i ==> (#[trigger] vec@[j])@ == (ChildView {
                        shared: false,
                        node: self.0@[j]@.node,
                    }),
            decreases self.0.len() - i,
        {
            vec.push(self.0[i].to_owned());
            i += 1;
        }
        let r = Children(vec);
        assert(r.deep_view() =~= restored(self.deep_view(), false));
        r
    }

    fn duplicate(&self) -> (r: Children)
        ensures
            r.deep_view() == self.deep_view(),
        decreases self,
    {
        let mut vec: Vec<NodeAccess> = Vec::new();
        let mut i: usize = 0;
        while i < self.0.len()
            invariant
                i <= self.0.len(),
                vec@.len() == i,
                forall|j: int| 0 <= j < i ==> (#[trigger] vec@[j])@ == self.0@[j]@,
            decreases self.0.len() - i,
        {
            vec.push(self.0[i].duplicate());
            i += 1;
        }
        let r = Children(vec);
        assert(r.deep_view() =~= self.deep_view());
        r
    }

    fn same(&self, other: &Children) -> (r: bool)
        ensures
            r ==> self.deep_view() == other.deep_view(),
            (forall|i: int|
                0 <= i < self.deep_view().len() ==> !(#[trigger] self.deep_view()[i]).shared
                    && all_owned(self.deep_view()[i].node)) ==> r == (self.deep_view()
                == other.deep_view()),
        decreases self,
    {
        if self.0.len() != other.0.len() {
            assert(self.deep_view().len() != other.deep_view().len());
            return false;
        }
        let mut i: usize = 0;
        while i < self.0.len()
            invariant
                i <= self.0.len(),
                self.0.len() == other.0.len(),
                forall|j: int| 0 <= j < i ==> (#[trigger] self.0@[j])@ == other.0@[j]@,
            decreases self.0.len() - i,
        {
            if !self.0[i].same(&other.0[i]) {
                assert(self.deep_view()[i as int] == self.0@[i as int]@);
                assert(other.deep_view()[i as int] == other.0@[i as int]@);
                return false;
            }
            i += 1;
        }
        assert(self.deep_view() =~= other.deep_view());
        true
    }
}

impl Clone for NodeAccess {
    /// An owned node is copied; a shared node is shared once more.
    fn clone(&self) -> (r: NodeAccess)
        ensures
            r@ == self@,
    {
        self.duplicate()
    }
}

impl PartialEq for NodeAccess {
    /// An owned node and a shared one are never equal. Two owned nodes are
    /// equal when they hold the same. Two shared nodes are equal only when
    /// they are one and the same allocation.
    fn eq(&self, other: &NodeAccess) -> (r: bool)
        ensures
            (self is Owned) != (other is Owned) ==> !r,
            r ==> self@ == other@,
            self is Owned && all_owned(self@.node) ==> r == (self@ == other@),
    {
        self.same(other)
    }
}

impl PartialEqSpecImpl for NodeAccess {
    open spec fn obeys_eq_spec() -> bool {
        false
    }

    open spec fn eq_spec(&self, other: &NodeAccess) -> bool {
        self@ == other@
    }
}

impl Deref for NodeAccess {
    type Target = Node;

    fn deref(&self) -> (r: &Node)
        ensures
            *r == self.node(),
    {
        match self {
            NodeAccess::Owned(n) => n,
            NodeAccess::Sharable(n) => n,
        }
    }
}

impl NodeAccess {
    /// The node as an owned child.
    pub(crate) fn new_owned(node: Node) -> (r: NodeAccess)
        ensures
            r == NodeAccess::Owned(node),
            r@ == (ChildView { shared: false, node: node@ }),
    {
        NodeAccess::Owned(node)
    }

    /// The node as a child behind a new shared pointer.
    pub(crate) fn new_shared(node: Node) -> (r: NodeAccess)
        ensures
            r is Sharable,
            r.node() == node,
            r@ == (ChildView { shared: true, node: node@ }),
    {
        let arc = Arc::new(node);
        NodeAccess::Sharable(arc)
    }

    /// Try to access the node mutably. An owned node always gives access. A
    /// shared node gives it only while no other pointer to it is alive.
    /// Nothing is copied: where access is refused the node is as before, and
    /// what is changed through the access is changed in this node.
    pub fn try_mut(&mut self) -> (r: Option<&mut Node>)
        ensures
            (*old(self)) is Owned ==> r is Some,
            match r {
                Some(n) => {
                    &&& *n == old(self).node()
                    &&& final(self).node() == *final(n)
                    &&& (*final(self)) is Owned <==> (*old(self)) is Owned
                    &&& final(self)@ == (ChildView { shared: old(self)@.shared, node: final(n)@ })
                },
                None => *final(self) == *old(self),
            },
    {
        match self {
            NodeAccess::Owned(n) => Some(n),
            NodeAccess::Sharable(n) => arc_get_mut(n),
        }
    }

    /// Convert this node to a sharable by cloning: a copy of the node behind
    /// a pointer of its own.
    pub fn to_sharable(&self) -> (r: Self)
        ensures
            r@ == (ChildView { shared: true, node: self@.node }),
    {
        match self {
            NodeAccess::Owned(n) => NodeAccess::Sharable(Arc::new(n.duplicate())),
            NodeAccess::Sharable(n) => NodeAccess::Sharable(Arc::new(n.duplicate())),
        }
    }

    /// Convert this node to an owned by cloning.
    pub fn to_owned(&self) -> (r: Self)
        ensures
            r@ == (ChildView { shared: false, node: self@.node }),
    {
        match self {
            NodeAccess::Owned(n) => NodeAccess::Owned(n.duplicate()),
            NodeAccess::Sharable(n) => NodeAccess::Owned(n.duplicate()),
        }
    }

    fn duplicate(&self) -> (r: NodeAccess)
        ensures
            r@ == self@,
        decreases self,
    {
        match self {
            NodeAccess::Owned(n) => NodeAccess::Owned(n.duplicate()),
            NodeAccess::Sharable(n) => NodeAccess::Sharable(arc_share(n)),
        }
    }

    fn same(&self, other: &NodeAccess) -> (r: bool)
        ensures
            (self is Owned) != (other is Owned) ==> !r,
            r ==> self@ == other@,
            self is Owned && all_owned(self@.node) ==> r == (self@ == other@),
        decreases self,
    {
        match (self, other) {
            (NodeAccess::Owned(a), NodeAccess::Owned(b)) => a.same(b),
            (NodeAccess::Sharable(a), NodeAccess::Sharable(b)) => arc_ptr_eq(a, b),
            _ => false,
        }
    }
}

impl Default for Node {
    fn default() -> (r: Node)
        ensures
            r@ == empty_node(),
    {
        Node::new()
    }
}

impl Clone for Node {
    /// A copy of the node. Owned children are copied with it; shared
    /// children are shared with it.
    fn clone(&self) -> (r: Node)
        ensures
            r@ == self@,
    {
        self.duplicate()
    }
}

impl PartialEq for Node {
    /// Field by field, the children as [`NodeAccess`] compares.
    fn eq(&self, other: &Node) -> (r: bool)
        ensures
            r ==> self@ == other@,
            all_owned(self@) ==> r == (self@ == other@),
    {
        self.same(other)
    }
}

impl PartialEqSpecImpl for Node {
    open spec fn obeys_eq_spec() -> bool {
        false
    }

    open spec fn eq_spec(&self, other: &Node) -> bool {
        self@ == other@
    }
}

/// A copy of the string, if there is one.
fn clone_text(text: &Option<String>) -> (r: Option<String>)
    ensures
        r.deep_view() == text.deep_view(),
{
    match text {
        Some(s) => Some(s.clone()),
        None => None,
    }
}

/// Whether both hold the same string, or both none.
fn same_text(a: &Option<String>, b: &Option<String>) -> (r: bool)
    ensures
        r == (a.deep_view() == b.deep_view()),
{
    match (a, b) {
        (Some(x), Some(y)) => *x == *y,
        (None, None) => true,
        _ => false,
    }
}

impl Node {
    /// Create new empty node with no children nor tags.
    pub fn new() -> (r: Self)
        ensures
            r@ == empty_node(),
    {
        let r = Node { start: None, text: None, end: None, children: Children(Vec::new()) };
        assert(r@.children =~= Seq::empty());
        r
    }

    /// A node made of its four parts.
    pub(crate) fn assemble(
        start: Option<OpeningTag>,
        text: Option<String>,
        end: Option<String>,
        children: Children,
    ) -> (r: Self)
        ensures
            r@ == (NodeView {
                start: start.deep_view(),
                text: text.deep_view(),
                end: end.deep_view(),
                children: children.deep_view(),
            }),
            r.child_list() == children@,
    {
        Node { start, text, end, children }
    }

    /// Start tag information.
    pub fn start(&self) -> (r: &Option<OpeningTag>)
        ensures
            r.deep_view() == self@.start,
    {
        &self.start
    }

    /// The name in the closing tag, if a closing tag was matched.
    pub fn end(&self) -> (r: Option<&str>)
        ensures
            r.deep_view() == self@.end,
    {
        match &self.end {
            Some(end) => Some(end.as_str()),
            None => None,
        }
    }

    /// Text that the node itself carries.
    pub fn text(&self) -> (r: Option<&str>)
        ensures
            r.deep_view() == self@.text,
    {
        match &self.text {
            Some(s) => Some(s.as_str()),
            None => None,
        }
    }

    /// Children of this node.
    pub fn children(&self) -> (r: &Children)
        ensures
            r@ == self.child_list(),
            r.deep_view() == self@.children,
    {
        &self.children
    }

    /// The name of the tag that is represented by the node.
    pub fn tag_name(&self) -> (r: Option<&str>)
        ensures
            r.deep_view() == (match self@.start {
                Some(t) => Some(t.name),
                None => None,
            }),
    {
        match &self.start {
            Some(start) => Some(start.name()),
            None => None,
        }
    }

    /// Start tag attributes.
    pub fn attributes(&self) -> (r: Option<&Vec<Attribute>>)
        ensures
            r.deep_view() == (match self@.start {
                Some(t) => Some(t.attrs),
                None => None,
            }),
    {
        match &self.start {
            Some(start) => Some(start.attributes()),
            None => None,
        }
    }

    /// Find attribute by its name: the first of that name.
    pub fn attribute_by_name(&self, key: &str) -> (r: Option<&Attribute>)
        ensures
            r.deep_view() == attribute_named(self@, key@),
    {
        match &self.start {
            Some(start) => match start.position_of(key) {
                Some(i) => Some(&start.attributes()[i]),
                None => None,
            },
            None => None,
        }
    }

    /// Try saving given attribute in this node.
    ///
    /// If an attribute of that name is already present the node is not
    /// changed, and the attribute is handed back.
    pub fn put_attribute(&mut self, attr: Attribute) -> (r: Result<(), Attribute>)
        ensures
            match r {
                Ok(_) => attribute_named(old(self)@, attr@.name) is None && final(self)@
                    == with_attribute(old(self)@, attr@),
                Err(a) => attribute_named(old(self)@, attr@.name) is Some && a@ == attr@
                    && final(self)@ == old(self)@,
            },
            final(self).child_list() == old(self).child_list(),
    {
        if self.attribute_by_name(attr.name()).is_some() {
            Err(attr)
        } else {
            self.overwrite_attribute(attr);
            Ok(())
        }
    }

    /// Save this attribute in the node. If one of that name is already
    /// present its values are replaced. A node without an opening tag is
    /// left as it is.
    pub fn overwrite_attribute(&mut self, attr: Attribute)
        ensures
            final(self)@ == with_attribute(old(self)@, attr@),
            final(self).child_list() == old(self).child_list(),
    {
        match &mut self.start {
            Some(start) => {
                start.overwrite(attr);
            },
            None => {},
        }
    }

    /// Change name of opening and closing tags (if any).
    pub fn change_name(&mut self, name: &str)
        ensures
            final(self)@ == with_closing_name(with_opening_name(old(self)@, name@), name@),
            final(self).child_list() == old(self).child_list(),
    {
        self.change_opening_name(name);
        self.change_closing_name(name);
    }

    /// Change the name of only opening tag if it exists.
    pub fn change_opening_name(&mut self, name: &str)
        ensures
            final(self)@ == with_opening_name(old(self)@, name@),
            final(self).child_list() == old(self).child_list(),
    {
        match &mut self.start {
            Some(start) => {
                start.set_name(name.to_owned());
            },
            None => {},
        }
    }

    /// Change the name of only closing tag if it exists. The new name is not
    /// held against the opening tag's: to keep the two alike is left to the
    /// caller.
    pub fn change_closing_name(&mut self, name: &str)
        ensures
            final(self)@ == with_closing_name(old(self)@, name@),
            final(self).child_list() == old(self).child_list(),
    {
        if self.end.is_some() {
            self.end = Some(name.to_owned());
        }
    }

    /// Mutable access to the node's children.
    pub fn children_mut(&mut self) -> (r: &mut Children)
        ensures
            r@ == old(self).child_list(),
            final(self).child_list() == final(r)@,
            final(self)@ == (NodeView { children: final(r).deep_view(), ..old(self)@ }),
    {
        &mut self.children
    }

    /// Convert this node and all its children into the text of a document.
    pub fn to_html(&self) -> (r: String)
        ensures
            r@ == node_markup(self@),
        decreases self,
    {
        let mut s = String::new();
        match &self.start {
            Some(start) => {
                write_opening(&mut s, start);
            },
            None => {},
        }
        match &self.text {
            Some(text) => {
                s.append(text.as_str());
            },
            None => {},
        }
        let ghost head = s@;
        let ghost kids = self@.children;
        let mut i: usize = 0;
        assert(kids.take(0) =~= Seq::empty());
        while i < self.children.0.len()
            invariant
                i <= self.children.0.len(),
                kids == self@.children,
                s@ == head + children_markup(kids.take(i as int)),
            decreases self.children.0.len() - i,
        {
            let child = match &self.children.0[i] {
                NodeAccess::Owned(n) => n.to_html(),
                NodeAccess::Sharable(n) => n.to_html(),
            };
            s.append(child.as_str());
            proof {
                assert(kids.take(i + 1).drop_last() =~= kids.take(i as int));
                assert(kids.take(i + 1).last().node == self.children.0@[i as int].node()@);
            }
            i += 1;
        }
        assert(kids.take(self.children.0.len() as int) =~= kids);
        match &self.end {
            Some(end) => {
                s.append("</");
                s.append(end.as_str());
                s.append(">");
            },
            None => {},
        }
        s
    }

    /// Mutable access to the node that the path reaches from this node.
    ///
    /// There is none where the path reaches nothing, nor where it leads
    /// through a shared node that cannot be changed now: the tree is then
    /// left as it is. What is changed through the access is changed in the
    /// tree, at that place and nowhere else.
    pub fn descendant_mut(&mut self, path: &[usize]) -> (r: Option<&mut NodeAccess>)
        ensures
            match r {
                Some(a) => {
                    &&& node_at_path(old(self)@, path@) == Some(a@)
                    &&& final(self)@ == with_node_at(old(self)@, path@, final(a)@)
                },
                None => final(self)@ == old(self)@,
            },
            all_owned(old(self)@) && node_at_path(old(self)@, path@) is Some ==> r is Some,
    {
        assert(path@.skip(0) =~= path@);
        self.descend(path, 0)
    }

    fn descend(&mut self, path: &[usize], from: usize) -> (r: Option<&mut NodeAccess>)
        requires
            from <= path@.len(),
        ensures
            match r {
                Some(a) => {
                    &&& node_at_path(old(self)@, path@.skip(from as int)) == Some(a@)
                    &&& final(self)@ == with_node_at(
                        old(self)@,
                        path@.skip(from as int),
                        final(a)@,
                    )
                },
                None => final(self)@ == old(self)@,
            },
            all_owned(old(self)@) && node_at_path(old(self)@, path@.skip(from as int)) is Some
                ==> r is Some,
        decreases path@.len() - from,
    {
        let ghost rest = path@.skip(from as int);
        if from >= path.len() {
            return None;
        }
        let i = path[from];
        assert(rest[0] == i);
        if i >= self.children.0.len() {
            return None;
        }
        let ghost before = self@;
        let child = self.child_mut(i);
        if from + 1 == path.len() {
            assert(rest.len() == 1);
            return Some(child);
        }
        assert(rest.drop_first() =~= path@.skip(from + 1));
        match child.try_mut() {
            Some(node) => node.descend(path, from + 1),
            None => None,
        }
    }

    /// Mutable access to the child at `i`.
    fn child_mut(&mut self, i: usize) -> (r: &mut NodeAccess)
        requires
            i < old(self)@.children.len(),
        ensures
            *r == old(self).child_list()[i as int],
            r@ == old(self)@.children[i as int],
            final(self)@.start == old(self)@.start,
            final(self)@.text == old(self)@.text,
            final(self)@.end == old(self)@.end,
            final(self)@.children =~= old(self)@.children.update(i as int, final(r)@),
            final(r)@ == r@ ==> final(self)@.children =~= old(self)@.children,
    {
        &mut self.children.0[i]
    }

    fn duplicate(&self) -> (r: Node)
        ensures
            r@ == self@,
        decreases self,
    {
        let start = match &self.start {
            Some(t) => Some(t.clone()),
            None => None,
        };
        Node {
            start,
            text: clone_text(&self.text),
            end: clone_text(&self.end),
            children: self.children.duplicate(),
        }
    }

    fn same(&self, other: &Node) -> (r: bool)
        ensures
            r ==> self@ == other@,
            all_owned(self@) ==> r == (self@ == other@),
        decreases self,
    {
        let start = match (&self.start, &other.start) {
            (Some(a), Some(b)) => *a == *b,
            (None, None) => true,
            _ => false,
        };
        start && same_text(&self.text, &other.text) && same_text(&self.end, &other.end)
            && self.children.same(&other.children)
    }
}

/// Writes an opening tag behind what `s` holds.
fn write_opening(s: &mut String, tag: &OpeningTag)
    ensures
        final(s)@ == old(s)@ + opening_markup(tag@),
{
    let ghost before = s@;
    let ghost attrs = tag@.attrs;
    s.append("<");
    s.append(tag.name());
    let list = tag.attributes();
    let mut i: usize = 0;
    assert(attrs.take(0) =~= Seq::empty());
    while i < list.len()
        invariant
            i <= list.len(),
            attrs == tag@.attrs,
            attrs == list.deep_view(),
            s@ == before + "<"@ + tag@.name + attributes_markup(attrs.take(i as int)),
        decreases list.len() - i,
    {
        let attr = &list[i];
        s.append(" ");
        s.append(attr.name());
        s.append("=\"");
        s.append(attr.values_to_string().as_str());
        s.append("\"");
        proof {
            assert(attrs.take(i + 1).drop_last() =~= attrs.take(i as int));
            assert(attrs.take(i + 1).last() == attr@);
            assert(s@ =~= before + "<"@ + tag@.name + (attributes_markup(attrs.take(i as int))
                + attribute_markup(attr@)));
        }
        i += 1;
    }
    assert(attrs.take(list.len() as int) =~= attrs);
    if tag.is_self_closing() {
        s.append("/");
    }
    s.append(">");
    assert(s@ =~= before + opening_markup(tag@));
}

/// The node that is reached from `n` by the path: by going, for each index
/// of the path in turn, to the child at that index. The empty path reaches
/// nothing, and neither does a path that names a child that is not there.
pub open spec fn node_at_path(n: NodeView, path: Seq<usize>) -> Option<ChildView>
    decreases path.len(),
{
    if path.len() == 0 || path[0] >= n.children.len() {
        None
    } else if path.len() == 1 {
        Some(n.children[path[0] as int])
    } else {
        node_at_path(n.children[path[0] as int].node, path.drop_first())
    }
}

/// The tree `n` with `x` in the place that the path reaches. A path that
/// reaches nothing leaves the tree as it is.
pub open spec fn with_node_at(n: NodeView, path: Seq<usize>, x: ChildView) -> NodeView
    decreases path.len(),
{
    if node_at_path(n, path) is None {
        n
    } else {
        let i = path[0] as int;
        let child = n.children[i];
        NodeView {
            children: n.children.update(
                i,
                if path.len() == 1 {
                    x
                } else {
                    ChildView {
                        shared: child.shared,
                        node: with_node_at(child.node, path.drop_first(), x),
                    }
                },
            ),
            ..n
        }
    }
}

/// The first attribute of the node that is named `key`.
pub open spec fn attribute_named(n: NodeView, key: Seq<char>) -> Option<AttributeView> {
    match n.start {
        Some(t) => match attribute_position(t.attrs, key) {
            Some(i) => Some(t.attrs[i]),
            None => None,
        },
        None => None,
    }
}

/// The node after `attr` has been written into its opening tag. A node
/// without an opening tag stays as it is.
pub open spec fn with_attribute(n: NodeView, attr: AttributeView) -> NodeView {
    match n.start {
        Some(t) => NodeView {
            start: Some(OpeningTagView { attrs: attributes_overwritten(t.attrs, attr), ..t }),
            ..n
        },
        None => n,
    }
}

/// The node with another name in its opening tag, if it has one.
pub open spec fn with_opening_name(n: NodeView, name: Seq<char>) -> NodeView {
    match n.start {
        Some(t) => NodeView { start: Some(OpeningTagView { name, ..t }), ..n },
        None => n,
    }
}

/// The node with another name in its closing tag, if it has one.
pub open spec fn with_closing_name(n: NodeView, name: Seq<char>) -> NodeView {
    match n.end {
        Some(_) => NodeView { end: Some(name), ..n },
        None => n,
    }
}

} // verus!
