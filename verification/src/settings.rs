//! The options under which a document is loaded.

use vstd::prelude::*;

verus! {

/// How children are stored in the node.
#[derive(Clone, Copy, Debug, PartialEq, Eq, Structural)]
pub enum ChildrenType {
    /// Each node owns its children.
    Owned,
    /// Each child sits behind a reference-counted pointer and can be shared.
    Sharable,
}

/// Settings that provide different options of how to load a document.
#[derive(Clone, Copy, Debug, PartialEq, Eq, Structural)]
pub struct LoadSettings {
    all_text_separately: bool,
    children_type: ChildrenType,
}

impl Default for LoadSettings {
    fn default() -> (r: Self)
        ensures
            r.separates_all_text(),
            r.children_type() == ChildrenType::Owned,
    {
        LoadSettings { all_text_separately: true, children_type: ChildrenType::Owned }
    }
}

impl LoadSettings {
    /// Whether a text that stands alone in its tag becomes a child node too.
    pub closed spec fn separates_all_text(self) -> bool {
        self.all_text_separately
    }

    /// How the children of every node are stored.
    pub closed spec fn children_type(self) -> ChildrenType {
        self.children_type
    }

    /// Whether children are stored behind shared pointers.
    pub open spec fn shares_children(self) -> bool {
        self.children_type() == ChildrenType::Sharable
    }

    /// The default settings: every text in a node of its own, children owned.
    pub fn new() -> (r: Self)
        ensures
            r.separates_all_text(),
            r.children_type() == ChildrenType::Owned,
    {
        LoadSettings { all_text_separately: true, children_type: ChildrenType::Owned }
    }

    /// Store all text values in separate children nodes, even the text which
    /// is alone in the tag body without other children.
    ///
    /// True by default.
    pub fn all_text_separately(self, b: bool) -> (r: Self)
        ensures
            r.separates_all_text() == b,
            r.children_type() == self.children_type(),
    {
        LoadSettings { all_text_separately: b, children_type: self.children_type }
    }

    /// See [`LoadSettings::all_text_separately`].
    pub fn set_all_text_separately(&mut self, b: bool)
        ensures
            final(self).separates_all_text() == b,
            final(self).children_type() == old(self).children_type(),
    {
        self.all_text_separately = b;
    }

    /// Node owns all of its children. This is the default.
    pub fn owned_children(self) -> (r: Self)
        ensures
            r.children_type() == ChildrenType::Owned,
            r.separates_all_text() == self.separates_all_text(),
    {
        LoadSettings {
            all_text_separately: self.all_text_separately,
            children_type: ChildrenType::Owned,
        }
    }

    /// Node can share its children. Opposite to `owned_children`.
    pub fn sharable_children(self) -> (r: Self)
        ensures
            r.children_type() == ChildrenType::Sharable,
            r.separates_all_text() == self.separates_all_text(),
    {
        LoadSettings {
            all_text_separately: self.all_text_separately,
            children_type: ChildrenType::Sharable,
        }
    }

    /// Whether every text becomes a node of its own.
    pub fn separates_text(&self) -> (r: bool)
        ensures
            r == self.separates_all_text(),
    {
        self.all_text_separately
    }

    /// How children are stored.
    pub fn storage(&self) -> (r: ChildrenType)
        ensures
            r == self.children_type(),
    {
        self.children_type
    }
}

} // verus!
