//! Attributes and the opening tag that carries them.

use crate::text::is_single_word;
use crate::text::join_with_spaces;
use crate::text::join_words;
use crate::text::split_words;
use crate::text::words;
use vstd::prelude::*;
use vstd::std_specs::cmp::PartialEqSpecImpl;

verus! {

/// What an [`Attribute`] holds: its name and its value tokens, in order.
pub struct AttributeView {
    pub name: Seq<char>,
    pub values: Seq<Seq<char>>,
}

/// Attribute of a tag: a name and the tokens of its value.
#[derive(Debug)]
pub struct Attribute {
    name: String,
    values: Vec<String>,
}

impl View for Attribute {
    type V = AttributeView;

    closed spec fn view(&self) -> AttributeView {
        AttributeView { name: self.name@, values: self.values.deep_view() }
    }
}

impl DeepView for Attribute {
    type V = AttributeView;

    open spec fn deep_view(&self) -> AttributeView {
        self@
    }
}

/// A copy of the strings, one by one.
pub(crate) fn clone_strings(strings: &Vec<String>) -> (r: Vec<String>)
    ensures
        r.deep_view() == strings.deep_view(),
{
    let mut out: Vec<String> = Vec::new();
    let mut i: usize = 0;
    while i < strings.len()
        invariant
            i <= strings.len(),
            out.len() == i,
            forall|j: int| 0 <= j < i ==> (#[trigger] out@[j])@ == strings@[j]@,
        decreases strings.len() - i,
    {
        out.push(strings[i].clone());
        i += 1;
    }
    assert(out.deep_view() =~= strings.deep_view());
    out
}

/// Whether the two lists hold the same strings in the same order.
pub(crate) fn same_strings(a: &Vec<String>, b: &Vec<String>) -> (r: bool)
    ensures
        r == (a.deep_view() == b.deep_view()),
{
    if a.len() != b.len() {
        assert(a.deep_view().len() != b.deep_view().len());
        return false;
    }
    let mut i: usize = 0;
    while i < a.len()
        invariant
            i <= a.len(),
            a.len() == b.len(),
            forall|j: int| 0 <= j < i ==> (#[trigger] a@[j])@ == b@[j]@,
        decreases a.len() - i,
    {
        if a[i] != b[i] {
            assert(a.deep_view()[i as int] != b.deep_view()[i as int]);
            return false;
        }
        i += 1;
    }
    assert(a.deep_view() =~= b.deep_view());
    true
}

impl Clone for Attribute {
    fn clone(&self) -> (r: Attribute)
        ensures
            r@ == self@,
    {
        Attribute { name: self.name.clone(), values: clone_strings(&self.values) }
    }
}

impl PartialEq for Attribute {
    fn eq(&self, other: &Attribute) -> (r: bool) {
        self.name == other.name && same_strings(&self.values, &other.values)
    }
}

impl PartialEqSpecImpl for Attribute {
    open spec fn obeys_eq_spec() -> bool {
        true
    }

    open spec fn eq_spec(&self, other: &Attribute) -> bool {
        self@ == other@
    }
}

impl Attribute {
    /// Create from a name and a value given as one string, whose tokens are
    /// separated by white space.
    pub fn from_name_and_str_values(name: String, values: &str) -> (r: Self)
        ensures
            r@ == (AttributeView { name: name@, values: words(values@) }),
    {
        Attribute { name, values: split_words(values) }
    }

    /// Create from a name and the value tokens as they are.
    pub fn from_name_and_values(name: String, values: Vec<String>) -> (r: Option<Self>)
        ensures
            r matches Some(a) && a@ == (AttributeView {
                name: name@,
                values: values.deep_view(),
            }),
    {
        Some(Attribute { name, values })
    }

    /// The name of the attribute.
    pub fn name(&self) -> (r: &str)
        ensures
            r@ == self@.name,
    {
        self.name.as_str()
    }

    /// The value tokens, each a string of its own.
    pub fn values(&self) -> (r: &Vec<String>)
        ensures
            r.deep_view() == self@.values,
    {
        &self.values
    }

    /// The whole value as one string: the tokens with single spaces between.
    pub fn values_to_string(&self) -> (r: String)
        ensures
            r@ == join_words(self@.values),
    {
        join_with_spaces(&self.values)
    }

    /// The first value token.
    pub fn first_value(&self) -> (r: &String)
        requires
            self@.values.len() > 0,
        ensures
            r@ == self@.values[0],
    {
        &self.values[0]
    }

    /// Set a new name.
    pub fn set_name(&mut self, name: String)
        ensures
            final(self)@ == (AttributeView { name: name@, values: old(self)@.values }),
    {
        self.name = name;
    }

    /// Set new value tokens. Fails, and changes nothing, where one of the
    /// strings holds more than one word.
    pub fn set_values(&mut self, values: Vec<String>) -> (r: Result<(), ()>)
        ensures
            r is Ok <==> forall|i: int|
                0 <= i < values@.len() ==> words(#[trigger] values.deep_view()[i]).len() <= 1,
            r is Ok ==> final(self)@ == (AttributeView {
                name: old(self)@.name,
                values: values.deep_view(),
            }),
            r is Err ==> final(self)@ == old(self)@,
    {
        let mut i: usize = 0;
        while i < values.len()
            invariant
                i <= values.len(),
                forall|j: int| 0 <= j < i ==> words(#[trigger] values.deep_view()[j]).len() <= 1,
            decreases values.len() - i,
        {
            if !is_single_word(values[i].as_str()) {
                assert(words(values.deep_view()[i as int]).len() > 1);
                return Err(());
            }
            i += 1;
        }
        self.values = values;
        Ok(())
    }
}

/// What an [`OpeningTag`] holds.
pub struct OpeningTagView {
    pub self_closing: bool,
    pub name: Seq<char>,
    pub attrs: Seq<AttributeView>,
}

/// Information carried in the opening tag.
#[derive(Debug)]
pub struct OpeningTag {
    empty: bool,
    name: String,
    attrs: Vec<Attribute>,
}

impl View for OpeningTag {
    type V = OpeningTagView;

    closed spec fn view(&self) -> OpeningTagView {
        OpeningTagView { self_closing: self.empty, name: self.name@, attrs: self.attrs.deep_view() }
    }
}

impl DeepView for OpeningTag {
    type V = OpeningTagView;

    open spec fn deep_view(&self) -> OpeningTagView {
        self@
    }
}

impl Clone for OpeningTag {
    fn clone(&self) -> (r: OpeningTag)
        ensures
            r@ == self@,
    {
        let mut attrs: Vec<Attribute> = Vec::new();
        let mut i: usize = 0;
        while i < self.attrs.len()
            invariant
                i <= self.attrs.len(),
                attrs.len() == i,
                forall|j: int| 0 <= j < i ==> (#[trigger] attrs@[j])@ == self.attrs@[j]@,
            decreases self.attrs.len() - i,
        {
            attrs.push(self.attrs[i].clone());
            i += 1;
        }
        assert(attrs.deep_view() =~= self.attrs.deep_view());
        OpeningTag { empty: self.empty, name: self.name.clone(), attrs }
    }
}

impl PartialEq for OpeningTag {
    fn eq(&self, other: &OpeningTag) -> (r: bool) {
        if self.empty != other.empty || self.name != other.name || self.attrs.len()
            != other.attrs.len() {
            assert(self.attrs.deep_view().len() == self.attrs.len());
            assert(other.attrs.deep_view().len() == other.attrs.len());
            return false;
        }
        let mut i: usize = 0;
        while i < self.attrs.len()
            invariant
                i <= self.attrs.len(),
                self.attrs.len() == other.attrs.len(),
                forall|j: int| 0 <= j < i ==> (#[trigger] self.attrs@[j])@ == other.attrs@[j]@,
            decreases self.attrs.len() - i,
        {
            if self.attrs[i] != other.attrs[i] {
                assert(self.attrs.deep_view()[i as int] != other.attrs.deep_view()[i as int]);
                return false;
            }
            i += 1;
        }
        assert(self.attrs.deep_view() =~= other.attrs.deep_view());
        true
    }
}

impl PartialEqSpecImpl for OpeningTag {
    open spec fn obeys_eq_spec() -> bool {
        true
    }

    open spec fn eq_spec(&self, other: &OpeningTag) -> bool {
        self@ == other@
    }
}

impl OpeningTag {
    /// A tag of the given name, self-closing or not, with the given attributes.
    pub(crate) fn new(name: String, self_closing: bool, attrs: Vec<Attribute>) -> (r: Self)
        ensures
            r@ == (OpeningTagView { self_closing, name: name@, attrs: attrs.deep_view() }),
    {
        OpeningTag { empty: self_closing, name, attrs }
    }

    /// Name of this tag.
    pub fn name(&self) -> (r: &str)
        ensures
            r@ == self@.name,
    {
        self.name.as_str()
    }

    /// Attributes of the tag, in the order in which they were written.
    pub fn attributes(&self) -> (r: &Vec<Attribute>)
        ensures
            r.deep_view() == self@.attrs,
    {
        &self.attrs
    }

    /// Whether the tag closes itself.
    pub fn is_self_closing(&self) -> (r: bool)
        ensures
            r == self@.self_closing,
    {
        self.empty
    }

    /// Gives the tag another name.
    pub(crate) fn set_name(&mut self, name: String)
        ensures
            final(self)@ == (OpeningTagView { name: name@, ..old(self)@ }),
    {
        self.name = name;
    }

    /// The index of the first attribute named `key`, if there is one.
    pub(crate) fn position_of(&self, key: &str) -> (r: Option<usize>)
        ensures
            match r {
                Some(i) => attribute_position(self@.attrs, key@) == Some(i as int) && i
                    < self@.attrs.len(),
                None => attribute_position(self@.attrs, key@) is None,
            },
    {
        let mut i: usize = 0;
        while i < self.attrs.len()
            invariant
                i <= self.attrs.len(),
                forall|j: int| 0 <= j < i ==> (#[trigger] self@.attrs[j]).name != key@,
            decreases self.attrs.len() - i,
        {
            if crate::text::str_eq(self.attrs[i].name(), key) {
                proof {
                    lemma_attribute_position(self@.attrs, key@, i as int);
                }
                return Some(i);
            }
            i += 1;
        }
        proof {
            lemma_attribute_position_none(self@.attrs, key@);
        }
        None
    }

    /// Replaces the values of the first attribute named as `attr`, or appends
    /// `attr` where there is none of that name.
    pub(crate) fn overwrite(&mut self, attr: Attribute)
        ensures
            final(self)@ == (OpeningTagView {
                attrs: attributes_overwritten(old(self)@.attrs, attr@),
                ..old(self)@
            }),
    {
        let ghost before = self.attrs.deep_view();
        match self.position_of(attr.name()) {
            Some(i) => {
                let Attribute { name, values } = attr;
                self.attrs[i].values = values;
                assert(self.attrs.deep_view() =~= before.update(
                    i as int,
                    AttributeView { name: before[i as int].name, values: values.deep_view() },
                ));
            },
            None => {
                self.attrs.push(attr);
                assert(self.attrs.deep_view() =~= before.push(attr@));
            },
        }
    }
}

/// The index of the first attribute of `attrs` that is named `key`.
pub open spec fn attribute_position(attrs: Seq<AttributeView>, key: Seq<char>) -> Option<int>
    decreases attrs.len(),
{
    if attrs.len() == 0 {
        None
    } else if attrs[0].name == key {
        Some(0)
    } else {
        match attribute_position(attrs.drop_first(), key) {
            Some(i) => Some(i + 1),
            None => None,
        }
    }
}

/// The attributes after one of them has been written over: the first of the
/// same name takes the new values and keeps its place and its name; where
/// there is none, the new attribute comes last.
pub open spec fn attributes_overwritten(attrs: Seq<AttributeView>, attr: AttributeView) -> Seq<
    AttributeView,
> {
    match attribute_position(attrs, attr.name) {
        Some(i) => attrs.update(i, AttributeView { name: attrs[i].name, values: attr.values }),
        None => attrs.push(attr),
    }
}

/// The first attribute of a name is found at its index.
pub proof fn lemma_attribute_position(attrs: Seq<AttributeView>, key: Seq<char>, i: int)
    requires
        0 <= i < attrs.len(),
        attrs[i].name == key,
        forall|j: int| 0 <= j < i ==> (#[trigger] attrs[j]).name != key,
    ensures
        attribute_position(attrs, key) == Some(i),
    decreases attrs.len(),
{
    if i > 0 {
        assert(attrs[0].name != key);
        assert forall|j: int| 0 <= j < i - 1 implies (#[trigger] attrs.drop_first()[j]).name
            != key by {
            assert(attrs.drop_first()[j] == attrs[j + 1]);
        }
        lemma_attribute_position(attrs.drop_first(), key, i - 1);
    }
}

/// Where no attribute has the name, none is found.
pub proof fn lemma_attribute_position_none(attrs: Seq<AttributeView>, key: Seq<char>)
    requires
        forall|j: int| 0 <= j < attrs.len() ==> (#[trigger] attrs[j]).name != key,
    ensures
        attribute_position(attrs, key) is None,
    decreases attrs.len(),
{
    if attrs.len() > 0 {
        assert(attrs[0].name != key);
        assert forall|j: int| 0 <= j < attrs.len() - 1 implies (
        #[trigger] attrs.drop_first()[j]).name != key by {
            assert(attrs.drop_first()[j] == attrs[j + 1]);
        }
        lemma_attribute_position_none(attrs.drop_first(), key);
    }
}

/// What is found is the first attribute of that name, and nothing is found
/// only where no attribute has it.
pub proof fn lemma_attribute_position_is_first(attrs: Seq<AttributeView>, key: Seq<char>)
    ensures
        match attribute_position(attrs, key) {
            Some(i) => 0 <= i < attrs.len() && attrs[i].name == key && forall|j: int|
                0 <= j < i ==> (#[trigger] attrs[j]).name != key,
            None => forall|j: int| 0 <= j < attrs.len() ==> (#[trigger] attrs[j]).name != key,
        },
    decreases attrs.len(),
{
    if attrs.len() > 0 && attrs[0].name != key {
        let rest = attrs.drop_first();
        lemma_attribute_position_is_first(rest, key);
        match attribute_position(rest, key) {
            Some(i) => {
                assert(rest[i] == attrs[i + 1]);
                assert forall|j: int| 0 <= j < i + 1 implies (#[trigger] attrs[j]).name != key by {
                    if j > 0 {
                        assert(rest[j - 1] == attrs[j]);
                    }
                }
            },
            None => {
                assert forall|j: int| 0 <= j < attrs.len() implies (#[trigger] attrs[j]).name
                    != key by {
                    if j > 0 {
                        assert(rest[j - 1] == attrs[j]);
                    }
                }
            },
        }
    }
}

} // verus!
