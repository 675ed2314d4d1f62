//! Search among the nodes below a node, by the attributes they carry.

use crate::attribute::Attribute;
use crate::attribute::AttributeView;
use crate::attribute::attribute_position;
use crate::node::ChildView;
use crate::node::Node;
use crate::node::NodeAccess;
use crate::node::NodeView;
use crate::node::lemma_access_model;
use crate::node::lemma_below;
use crate::node::lemma_children_decrease;
use crate::node::lemma_listing;
use crate::node::lemma_node_children;
use crate::node::listing;
use crate::node::node_at_path;
use crate::text::join_words;
use crate::text::str_eq;
use vstd::prelude::*;

verus! {

/// What is looked for: the name of an attribute, its whole value, one token
/// of its value. Each of the three may be left open.
pub struct Criterion {
    pub key: Option<Seq<char>>,
    pub value: Option<Seq<char>>,
    pub value_part: Option<Seq<char>>,
}

/// Whether the attribute's value is what the criterion asks for. Where a
/// whole value is asked for, the tokens joined by single spaces must be that
/// value, and `value_part` plays no role. Else, where a token is asked for,
/// it must be one of the attribute's tokens. Else every attribute will do.
pub open spec fn attribute_matches(c: Criterion, a: AttributeView) -> bool {
    match c.value {
        Some(v) => join_words(a.values) == v,
        None => match c.value_part {
            Some(p) => a.values.contains(p),
            None => true,
        },
    }
}

/// Whether the node is one that the criterion asks for. Where the criterion
/// names an attribute, the node's first attribute of that name must match;
/// else one of its attributes, whichever, must. A node without an opening
/// tag has no attribute and never matches.
pub open spec fn node_matches(c: Criterion, n: NodeView) -> bool {
    match n.start {
        None => false,
        Some(t) => match c.key {
            Some(k) => match attribute_position(t.attrs, k) {
                Some(i) => attribute_matches(c, t.attrs[i]),
                None => false,
            },
            None => exists|i: int|
                0 <= i < t.attrs.len() && attribute_matches(c, #[trigger] t.attrs[i]),
        },
    }
}

/// All the nodes below `n` in document order: each child, followed by all
/// that is below it, before the next child.
pub open spec fn descendants(n: NodeView) -> Seq<ChildView>
    decreases n,
{
    preorder(n.children)
}

/// The nodes of `children` in document order, each followed by all that is
/// below it.
pub open spec fn preorder(children: Seq<ChildView>) -> Seq<ChildView>
    decreases children,
{
    if children.len() == 0 {
        Seq::empty()
    } else {
        preorder(children.drop_last()) + seq![children.last()] + descendants(children.last().node)
    }
}

/// Those of the nodes that the criterion asks for, in their order.
pub open spec fn matching(nodes: Seq<ChildView>, c: Criterion) -> Seq<ChildView> {
    nodes.filter(|x: ChildView| node_matches(c, x.node))
}

/// Those of the nodes, as the tree holds them, that the criterion asks for.
pub open spec fn matching_nodes(nodes: Seq<NodeAccess>, c: Criterion) -> Seq<NodeAccess> {
    nodes.filter(|x: NodeAccess| node_matches(c, x@.node))
}

/// The nodes that the references lead to.
pub open spec fn referred(found: Seq<&NodeAccess>) -> Seq<NodeAccess> {
    found.map_values(|x: &NodeAccess| *x)
}

/// Settings to fetch children nodes that apply to given criteria.
#[derive(Clone, Copy)]
pub struct ChildrenFetch<'a> {
    /// Node to search in.
    node: &'a Node,
    /// Key to search for.
    key: Option<&'a str>,
    /// Exact value to search for.
    value: Option<&'a str>,
    /// If exact value is not set then this defines a part of the value
    /// separated with whitespaces to be found.
    value_part: Option<&'a str>,
}

/// `ChildrenFetch` for a node that is held for change.
pub struct ChildrenFetchMut<'a> {
    inner: ChildrenFetch<'a>,
}

impl<'a> ChildrenFetch<'a> {
    /// The node that is searched in.
    pub closed spec fn target(self) -> Node {
        *self.node
    }

    /// What is looked for.
    pub closed spec fn criterion(self) -> Criterion {
        Criterion {
            key: self.key.deep_view(),
            value: self.value.deep_view(),
            value_part: self.value_part.deep_view(),
        }
    }

    /// Get children fetcher for given node to find children that apply to
    /// some criteria. Nothing is asked for yet.
    pub fn for_node(node: &'a Node) -> (r: Self)
        ensures
            r.target() == *node,
            r.criterion() == (Criterion { key: None, value: None, value_part: None }),
    {
        ChildrenFetch { node, key: None, value: None, value_part: None }
    }

    /// Clone the fetcher with already set criteria but for given different
    /// node.
    pub fn same_for_node(&self, node: &'a Node) -> (r: Self)
        ensures
            r.target() == *node,
            r.criterion() == self.criterion(),
    {
        ChildrenFetch {
            node,
            key: self.key,
            value: self.value,
            value_part: self.value_part,
        }
    }

    /// Key to search for.
    pub fn key(self, key: &'a str) -> (r: Self)
        ensures
            r.target() == self.target(),
            r.criterion() == (Criterion { key: Some(key@), ..self.criterion() }),
    {
        ChildrenFetch {
            node: self.node,
            key: Some(key),
            value: self.value,
            value_part: self.value_part,
        }
    }

    /// See [`ChildrenFetch::key`].
    pub fn set_key(&mut self, key: &'a str)
        ensures
            final(self).target() == old(self).target(),
            final(self).criterion() == (Criterion { key: Some(key@), ..old(self).criterion() }),
    {
        self.key = Some(key);
    }

    /// Exact value to search for.
    pub fn value(self, value: &'a str) -> (r: Self)
        ensures
            r.target() == self.target(),
            r.criterion() == (Criterion { value: Some(value@), ..self.criterion() }),
    {
        ChildrenFetch {
            node: self.node,
            key: self.key,
            value: Some(value),
            value_part: self.value_part,
        }
    }

    /// See [`ChildrenFetch::value`].
    pub fn set_value(&mut self, value: &'a str)
        ensures
            final(self).target() == old(self).target(),
            final(self).criterion() == (Criterion { value: Some(value@), ..old(self).criterion() }),
    {
        self.value = Some(value);
    }

    /// If exact value is not set then this defines a part of the value
    /// separated with whitespaces to be found. If `value` is, however, set
    /// then this field is ignored entirely.
    pub fn value_part(self, part: &'a str) -> (r: Self)
        ensures
            r.target() == self.target(),
            r.criterion() == (Criterion { value_part: Some(part@), ..self.criterion() }),
    {
        ChildrenFetch { node: self.node, key: self.key, value: self.value, value_part: Some(part) }
    }

    /// See [`ChildrenFetch::value_part`].
    pub fn set_value_part(&mut self, part: &'a str)
        ensures
            final(self).target() == old(self).target(),
            final(self).criterion() == (Criterion {
                value_part: Some(part@),
                ..old(self).criterion()
            }),
    {
        self.value_part = Some(part);
    }

    /// Whether the attribute's value is what is asked for.
    fn accepts_attribute(&self, attr: &Attribute) -> (r: bool)
        ensures
            r == attribute_matches(self.criterion(), attr@),
    {
        match self.value {
            Some(value) => {
                let joined = attr.values_to_string();
                str_eq(joined.as_str(), value)
            },
            None => match self.value_part {
                Some(part) => {
                    let values = attr.values();
                    let mut i: usize = 0;
                    while i < values.len()
                        invariant
                            i <= values.len(),
                            values.deep_view() == attr@.values,
                            self.criterion().value is None,
                            self.criterion().value_part == Some(part@),
                            forall|j: int| 0 <= j < i ==> attr@.values[j] != part@,
                        decreases values.len() - i,
                    {
                        assert(values.deep_view()[i as int] == values@[i as int]@);
                        if str_eq(values[i].as_str(), part) {
                            assert(attr@.values[i as int] == part@);
                            return true;
                        }
                        i += 1;
                    }
                    false
                },
                None => true,
            },
        }
    }

    /// Whether the node is one that is asked for.
    fn accepts(&self, node: &Node) -> (r: bool)
        ensures
            r == node_matches(self.criterion(), node@),
    {
        match self.key {
            Some(key) => match node.attribute_by_name(key) {
                Some(attr) => self.accepts_attribute(attr),
                None => false,
            },
            None => match node.attributes() {
                Some(attrs) => {
                    let mut i: usize = 0;
                    while i < attrs.len()
                        invariant
                            i <= attrs.len(),
                            node@.start is Some,
                            self.criterion().key is None,
                            attrs.deep_view() == node@.start->0.attrs,
                            forall|j: int|
                                0 <= j < i ==> !attribute_matches(
                                    self.criterion(),
                                    #[trigger] node@.start->0.attrs[j],
                                ),
                        decreases attrs.len() - i,
                    {
                        assert(attrs.deep_view()[i as int] == attrs@[i as int]@);
                        if self.accepts_attribute(&attrs[i]) {
                            assert(attribute_matches(
                                self.criterion(),
                                node@.start->0.attrs[i as int],
                            ));
                            return true;
                        }
                        i += 1;
                    }
                    false
                },
                None => false,
            },
        }
    }

    /// Appends to `found` the nodes below `node` that are asked for.
    fn collect(&self, node: &'a Node, found: &mut Vec<&'a NodeAccess>)
        ensures
            referred(final(found)@) == referred(old(found)@) + matching_nodes(
                node.below(),
                self.criterion(),
            ),
        decreases node,
    {
        let ghost c = self.criterion();
        let ghost held = referred(found@);
        let ghost list = node.child_list();
        let children = node.children();
        let count = children.len();
        let mut i: usize = 0;
        proof {
            assert(list.take(0) =~= Seq::empty());
            lemma_listing(list.take(0));
            lemma_matching_nodes_empty(c);
            assert(held + Seq::<NodeAccess>::empty() =~= held);
        }
        while i < count
            invariant
                i <= count,
                count == list.len(),
                c == self.criterion(),
                children@ == list,
                list == node.child_list(),
                referred(found@) == held + matching_nodes(listing(list.take(i as int)), c),
            decreases count - i,
        {
            let child: &'a NodeAccess = &children[i];
            let ghost front = matching_nodes(listing(list.take(i as int)), c);
            let ghost own = matching_nodes(seq![*child], c);
            let ghost deep = matching_nodes(child.node().below(), c);
            let ghost held_so_far = referred(found@);
            proof {
                lemma_children_decrease(*node, i as int);
                lemma_access_model(*child);
                lemma_listing_step(list, i as int);
                lemma_matching_nodes_step(listing(list.take(i as int)), *child, c);
            }
            if self.accepts(child) {
                found.push(child);
                assert(referred(found@) =~= held_so_far.push(*child));
            }
            assert(referred(found@) =~= held + front + own);
            self.collect(child, found);
            assert(referred(found@) =~= held + (front + own + deep));
            i += 1;
        }
        proof {
            assert(list.take(count as int) =~= list);
            lemma_below(*node);
        }
    }

    /// Get all children and their children that apply to the criteria: the
    /// nodes below the node in document order, a node before what is below
    /// it, each of them once and none left out. The references lead to the
    /// nodes of the tree themselves.
    pub fn fetch(self) -> (r: Vec<&'a NodeAccess>)
        ensures
            referred(r@) == matching_nodes(self.target().below(), self.criterion()),
            r.deep_view() == matching(descendants(self.target()@), self.criterion()),
    {
        let mut found: Vec<&'a NodeAccess> = Vec::new();
        assert(referred(found@) =~= Seq::<NodeAccess>::empty());
        self.collect(self.node, &mut found);
        proof {
            let c = self.criterion();
            let below = self.target().below();
            assert(Seq::<NodeAccess>::empty() + matching_nodes(below, c) =~= matching_nodes(
                below,
                c,
            ));
            assert(found.deep_view() =~= views_of(referred(found@)));
            lemma_matching_views(below, c);
            lemma_views_below(self.target());
        }
        found
    }
}

/// Among no nodes none is found.
pub proof fn lemma_matching_empty(c: Criterion)
    ensures
        matching(Seq::empty(), c) == Seq::<ChildView>::empty(),
{
    reveal(Seq::filter);
}

/// The views of the nodes.
pub open spec fn views_of(nodes: Seq<NodeAccess>) -> Seq<ChildView> {
    nodes.map_values(|x: NodeAccess| x@)
}

/// The nodes below a node, seen through their views, are the nodes below
/// the node's view: what is said of the one listing holds of the other.
pub proof fn lemma_views_below(node: Node)
    ensures
        views_of(node.below()) == descendants(node@),
    decreases node, 1int, 0int,
{
    lemma_below(node);
    lemma_node_children(node);
    lemma_views_listed(node, node.child_list().len() as int);
    assert(node.child_list().take(node.child_list().len() as int) =~= node.child_list());
    assert(node@.children.take(node@.children.len() as int) =~= node@.children);
}

/// The first `k` children of a node and all below them, seen through their
/// views, are the first `k` children of the node's view and all below them.
proof fn lemma_views_listed(node: Node, k: int)
    requires
        0 <= k <= node.child_list().len(),
    ensures
        views_of(listing(node.child_list().take(k))) == preorder(node@.children.take(k)),
    decreases node, 0int, k,
{
    let list = node.child_list();
    let kids = node@.children;
    lemma_node_children(node);
    lemma_listing(list.take(k));
    if k == 0 {
        assert(list.take(0) =~= Seq::empty());
        assert(kids.take(0) =~= Seq::empty());
        assert(views_of(Seq::empty()) =~= Seq::<ChildView>::empty());
    } else {
        let child = list[k - 1];
        lemma_views_listed(node, k - 1);
        lemma_children_decrease(node, k - 1);
        lemma_access_model(child);
        lemma_views_below(child.node());
        assert(list.take(k).drop_last() =~= list.take(k - 1));
        assert(list.take(k).last() == child);
        assert(kids.take(k).drop_last() =~= kids.take(k - 1));
        assert(kids.take(k).last() == child@);
        let front = listing(list.take(k - 1));
        assert(views_of(front + seq![child] + child.node().below()) =~= views_of(front) + seq![
            child@,
        ] + views_of(child.node().below()));
    }
}

/// A listing of the first children of a node goes on with the next child
/// and all that is below it.
pub proof fn lemma_listing_step(list: Seq<NodeAccess>, i: int)
    requires
        0 <= i < list.len(),
    ensures
        listing(list.take(i + 1)) == listing(list.take(i)) + seq![list[i]] + list[i].node().below(),
{
    lemma_listing(list.take(i + 1));
    assert(list.take(i + 1).drop_last() =~= list.take(i));
    assert(list.take(i + 1).last() == list[i]);
}

/// To look for matches among nodes and to look among their views is the
/// same: a node matches by what its view holds.
pub proof fn lemma_matching_views(nodes: Seq<NodeAccess>, c: Criterion)
    ensures
        views_of(matching_nodes(nodes, c)) == matching(views_of(nodes), c),
    decreases nodes.len(),
{
    reveal(Seq::filter);
    if nodes.len() == 0 {
        assert(views_of(matching_nodes(nodes, c)) =~= matching(views_of(nodes), c));
    } else {
        let front = nodes.drop_last();
        lemma_matching_views(front, c);
        assert(views_of(nodes).drop_last() =~= views_of(front));
        assert(views_of(nodes).last() == nodes.last()@);
        assert(views_of(matching_nodes(nodes, c)) =~= matching(views_of(nodes), c));
    }
}

/// Among no nodes none is found.
pub proof fn lemma_matching_nodes_empty(c: Criterion)
    ensures
        matching_nodes(Seq::empty(), c) == Seq::<NodeAccess>::empty(),
{
    reveal(Seq::filter);
}

/// What is found in a listing that goes on with a node and all below it is
/// what is found before the node, then the node if it matches, then what is
/// found below it.
pub proof fn lemma_matching_nodes_step(front: Seq<NodeAccess>, x: NodeAccess, c: Criterion)
    ensures
        matching_nodes(front + seq![x] + x.node().below(), c) == matching_nodes(front, c)
            + matching_nodes(seq![x], c) + matching_nodes(x.node().below(), c),
        matching_nodes(seq![x], c) == if node_matches(c, x@.node) {
            seq![x]
        } else {
            Seq::empty()
        },
{
    let p = |x: NodeAccess| node_matches(c, x@.node);
    Seq::filter_distributes_over_add(front + seq![x], x.node().below(), p);
    Seq::filter_distributes_over_add(front, seq![x], p);
    reveal_with_fuel(Seq::filter, 2);
    assert(seq![x].drop_last() =~= Seq::empty());
    assert(seq![x].last() == x);
    assert(Seq::<NodeAccess>::empty().push(x) =~= seq![x]);
}

/// Of one node, it is found or not as it matches.
pub proof fn lemma_matching_one(x: ChildView, c: Criterion)
    ensures
        matching(seq![x], c) == if node_matches(c, x.node) {
            seq![x]
        } else {
            Seq::empty()
        },
{
    reveal_with_fuel(Seq::filter, 2);
    let p = |x: ChildView| node_matches(c, x.node);
    assert(seq![x].drop_last() =~= Seq::empty());
    assert(seq![x].last() == x);
    assert(Seq::<ChildView>::empty().push(x) =~= seq![x]);
}

/// What is found in a listing that goes on with a node and all below it is
/// what is found before the node, then the node if it matches, then what is
/// found below it.
pub proof fn lemma_matching_step(front: Seq<ChildView>, x: ChildView, c: Criterion)
    ensures
        matching(front + seq![x] + descendants(x.node), c) == matching(front, c) + matching(
            seq![x],
            c,
        ) + matching(descendants(x.node), c),
        matching(seq![x], c) == if node_matches(c, x.node) {
            seq![x]
        } else {
            Seq::empty()
        },
{
    let p = |x: ChildView| node_matches(c, x.node);
    Seq::filter_distributes_over_add(front + seq![x], descendants(x.node), p);
    Seq::filter_distributes_over_add(front, seq![x], p);
    lemma_matching_one(x, c);
}

/// Whether the paths lead from `n` to the nodes, the first path to the
/// first node and so on.
pub open spec fn paths_reach(n: NodeView, paths: Seq<Vec<usize>>, nodes: Seq<ChildView>) -> bool {
    &&& paths.len() == nodes.len()
    &&& forall|k: int|
        0 <= k < paths.len() ==> node_at_path(n, (#[trigger] paths[k])@) == Some(nodes[k])
}

/// The path that begins with `first` and goes on as `rest` does.
fn prefixed(first: usize, rest: &Vec<usize>) -> (r: Vec<usize>)
    ensures
        r@ == seq![first] + rest@,
{
    let mut path: Vec<usize> = Vec::new();
    path.push(first);
    let mut i: usize = 0;
    while i < rest.len()
        invariant
            i <= rest.len(),
            path@ == seq![first] + rest@.take(i as int),
        decreases rest.len() - i,
    {
        path.push(rest[i]);
        assert(path@ =~= seq![first] + rest@.take(i + 1));
        i += 1;
    }
    assert(rest@.take(rest.len() as int) =~= rest@);
    path
}

impl<'a> ChildrenFetchMut<'a> {
    /// The paths from `node` to the nodes below it that are asked for.
    fn collect_paths(&self, node: &Node) -> (r: Vec<Vec<usize>>)
        ensures
            paths_reach(node@, r@, matching(descendants(node@), self.criterion())),
        decreases node,
    {
        let ghost c = self.criterion();
        let ghost n = node@;
        let ghost kids = node@.children;
        let children = node.children();
        let count = children.len();
        let mut out: Vec<Vec<usize>> = Vec::new();
        let mut i: usize = 0;
        proof {
            lemma_node_children(*node);
            assert(kids.take(0) =~= Seq::empty());
            lemma_matching_empty(c);
        }
        while i < count
            invariant
                i <= count,
                count == children@.len(),
                c == self.criterion(),
                n == node@,
                kids == n.children,
                children@ == node.child_list(),
                children.deep_view() == kids,
                paths_reach(n, out@, matching(preorder(kids.take(i as int)), c)),
            decreases count - i,
        {
            let child = &children[i];
            let ghost front = matching(preorder(kids.take(i as int)), c);
            let ghost own = matching(seq![kids[i as int]], c);
            let ghost deep = matching(descendants(kids[i as int].node), c);
            proof {
                lemma_node_children(*node);
                lemma_children_decrease(*node, i as int);
                lemma_access_model(*child);
                assert(child@ == kids[i as int]);
                assert(kids.take(i + 1).drop_last() =~= kids.take(i as int));
                assert(kids.take(i + 1).last() == kids[i as int]);
                lemma_matching_step(preorder(kids.take(i as int)), kids[i as int], c);
            }
            if self.inner.accepts(child) {
                let mut path: Vec<usize> = Vec::new();
                path.push(i);
                assert(path@ =~= seq![i]);
                out.push(path);
            }
            assert(paths_reach(n, out@, front + own));
            let below = self.collect_paths(child);
            let mut j: usize = 0;
            while j < below.len()
                invariant
                    j <= below.len(),
                    i < count,
                    count == kids.len(),
                    kids == n.children,
                    paths_reach(kids[i as int].node, below@, deep),
                    out@.len() == front.len() + own.len() + j,
                    forall|k: int|
                        0 <= k < out@.len() ==> node_at_path(n, (#[trigger] out@[k])@) == Some(
                            (front + own + deep)[k],
                        ),
                decreases below.len() - j,
            {
                let path = prefixed(i, &below[j]);
                proof {
                    let rest = below@[j as int]@;
                    assert(node_at_path(kids[i as int].node, rest) == Some(deep[j as int]));
                    assert(rest.len() > 0);
                    assert(path@.drop_first() =~= rest);
                    assert(path@[0] == i);
                }
                out.push(path);
                j += 1;
            }
            assert(paths_reach(n, out@, front + own + deep));
            i += 1;
        }
        assert(kids.take(count as int) =~= kids);
        out
    }

    /// The places of all children and their children that apply to the
    /// criteria: for each node that [`ChildrenFetchMut::fetch`] returns, in
    /// the same order, the path that leads to it from the node that is
    /// searched in. With such a path `Node::descendant_mut` gives mutable
    /// access to the node, to one node at a time.
    pub fn fetch_mut(self) -> (r: Vec<Vec<usize>>)
        ensures
            paths_reach(
                self.target()@,
                r@,
                matching(descendants(self.target()@), self.criterion()),
            ),
    {
        self.collect_paths(self.inner.node)
    }

    /// The node that is searched in.
    pub closed spec fn target(self) -> Node {
        self.inner.target()
    }

    /// What is looked for.
    pub closed spec fn criterion(self) -> Criterion {
        self.inner.criterion()
    }

    /// Get children fetcher for given node to find children that apply to
    /// some criteria.
    pub fn for_node(node: &'a Node) -> (r: Self)
        ensures
            r.target() == *node,
            r.criterion() == (Criterion { key: None, value: None, value_part: None }),
    {
        let inner = ChildrenFetch::for_node(node);
        ChildrenFetchMut { inner }
    }

    /// Get all children and their children that apply to the criteria.
    pub fn fetch(self) -> (r: Vec<&'a NodeAccess>)
        ensures
            referred(r@) == matching_nodes(self.target().below(), self.criterion()),
            r.deep_view() == matching(descendants(self.target()@), self.criterion()),
    {
        self.inner.fetch()
    }

    /// Clone the fetcher with already set criteria but for given different
    /// node.
    pub fn same_for_node(&self, node: &'a Node) -> (r: Self)
        ensures
            r.target() == *node,
            r.criterion() == self.criterion(),
    {
        ChildrenFetchMut { inner: self.inner.same_for_node(node) }
    }

    /// Key to search for.
    pub fn key(self, key: &'a str) -> (r: Self)
        ensures
            r.target() == self.target(),
            r.criterion() == (Criterion { key: Some(key@), ..self.criterion() }),
    {
        let inner = self.inner.key(key);
        ChildrenFetchMut { inner }
    }

    /// Exact value to search for.
    pub fn value(self, value: &'a str) -> (r: Self)
        ensures
            r.target() == self.target(),
            r.criterion() == (Criterion { value: Some(value@), ..self.criterion() }),
    {
        let inner = self.inner.value(value);
        ChildrenFetchMut { inner }
    }

    /// If exact value is not set then this defines a part of the value
    /// separated with whitespaces to be found. If `value` is, however, set
    /// then this field is ignored entirely.
    pub fn value_part(self, part: &'a str) -> (r: Self)
        ensures
            r.target() == self.target(),
            r.criterion() == (Criterion { value_part: Some(part@), ..self.criterion() }),
    {
        let inner = self.inner.value_part(part);
        ChildrenFetchMut { inner }
    }
}

impl Node {
    /// Get children fetcher for this node to find children that apply to
    /// some criteria.
    pub fn children_fetch(&self) -> (r: ChildrenFetch<'_>)
        ensures
            r.target() == *self,
            r.criterion() == (Criterion { key: None, value: None, value_part: None }),
    {
        ChildrenFetch::for_node(self)
    }

    /// The same for a node that is held for change.
    pub fn children_fetch_mut(&mut self) -> (r: ChildrenFetchMut<'_>)
        ensures
            r.target() == *old(self),
            r.criterion() == (Criterion { key: None, value: None, value_part: None }),
    {
        ChildrenFetchMut::for_node(self)
    }
}

} // verus!
