//! The untyped tree of a document: named elements that carry attributes and
//! an ordered list of child elements.

use vstd::prelude::*;
use vstd::std_specs::cmp::PartialEqSpecImpl;
use vstd::std_specs::convert::FromSpecImpl;
use vstd::string::StringSliceAdditionalSpecFns;
use vstd::utf8::encode_utf8;
use crate::error::{LoadError, LoadErrorView, StoreError, StreamError};
use crate::ext::{
    parse_lookup, parse_rle_string, parse_string, rle_pairs, rle_string_bytes, string_bytes, ReadExt,
    Reader, WriteExt, RLE_LIMIT,
};
use crate::float::Float32;
use crate::table::{
    lemma_intern, lemma_intern_twice, lemma_prefix_chain, orderly, spec_intern, StringTable,
    TABLE_LIMIT,
};
use crate::text::{str_eq, string_views};
use crate::wire::{as_signed, as_unsigned, le_bytes, le_value};

verus! {

/// A value that an attribute of an element can hold.
///
/// A `String` and an `RleString` with the same text are different values:
/// the variant decides how the text is written.
#[derive(Debug)]
pub enum Value {
    /// A truth value.
    Boolean(bool),
    /// A 32-bit signed integer.
    Integer(i32),
    /// A single-precision number.
    Float(Float32),
    /// A text.
    String(String),
    /// A text that is written run-length encoded.
    RleString(String),
}

/// What a [`Value`] holds, its texts as character sequences.
pub ghost enum ValueView {
    Boolean(bool),
    Integer(i32),
    Float(Float32),
    String(Seq<char>),
    RleString(Seq<char>),
}

impl View for Value {
    type V = ValueView;

    open spec fn view(&self) -> ValueView {
        match self {
            Value::Boolean(b) => ValueView::Boolean(*b),
            Value::Integer(i) => ValueView::Integer(*i),
            Value::Float(x) => ValueView::Float(*x),
            Value::String(s) => ValueView::String(s@),
            Value::RleString(s) => ValueView::RleString(s@),
        }
    }
}

impl Clone for Value {
    fn clone(&self) -> (r: Value)
        ensures
            r@ == self@,
    {
        match self {
            Value::Boolean(b) => Value::Boolean(*b),
            Value::Integer(i) => Value::Integer(*i),
            Value::Float(x) => Value::Float(*x),
            Value::String(s) => Value::String(s.clone()),
            Value::RleString(s) => Value::RleString(s.clone()),
        }
    }
}

impl PartialEq for Value {
    fn eq(&self, other: &Value) -> (r: bool) {
        match (self, other) {
            (Value::Boolean(a), Value::Boolean(b)) => *a == *b,
            (Value::Integer(a), Value::Integer(b)) => *a == *b,
            (Value::Float(a), Value::Float(b)) => a.bits == b.bits,
            (Value::String(a), Value::String(b)) => str_eq(a.as_str(), b.as_str()),
            (Value::RleString(a), Value::RleString(b)) => str_eq(a.as_str(), b.as_str()),
            _ => false,
        }
    }
}

impl PartialEqSpecImpl for Value {
    open spec fn obeys_eq_spec() -> bool {
        true
    }

    open spec fn eq_spec(&self, other: &Value) -> bool {
        self@ == other@
    }
}

impl From<bool> for Value {
    fn from(value: bool) -> (r: Value)
        ensures
            r == Value::Boolean(value),
    {
        Value::Boolean(value)
    }
}

impl FromSpecImpl<bool> for Value {
    open spec fn obeys_from_spec() -> bool {
        true
    }

    open spec fn from_spec(v: bool) -> Value {
        Value::Boolean(v)
    }
}

impl From<i32> for Value {
    fn from(value: i32) -> (r: Value)
        ensures
            r == Value::Integer(value),
    {
        Value::Integer(value)
    }
}

impl FromSpecImpl<i32> for Value {
    open spec fn obeys_from_spec() -> bool {
        true
    }

    open spec fn from_spec(v: i32) -> Value {
        Value::Integer(v)
    }
}

impl From<Float32> for Value {
    fn from(value: Float32) -> (r: Value)
        ensures
            r == Value::Float(value),
    {
        Value::Float(value)
    }
}

impl FromSpecImpl<Float32> for Value {
    open spec fn obeys_from_spec() -> bool {
        true
    }

    open spec fn from_spec(v: Float32) -> Value {
        Value::Float(v)
    }
}

impl From<String> for Value {
    fn from(value: String) -> (r: Value)
        ensures
            r == Value::String(value),
    {
        Value::String(value)
    }
}

impl FromSpecImpl<String> for Value {
    open spec fn obeys_from_spec() -> bool {
        true
    }

    open spec fn from_spec(v: String) -> Value {
        Value::String(v)
    }
}

/// The attributes of an element: values under distinct names.
///
/// The attributes are kept in the order in which their names were first
/// inserted. That order decides nothing but the order in which they are
/// written; two sets of attributes are equal when they hold the same values
/// under the same names.
#[derive(Debug)]
pub struct Attributes {
    entries: Vec<(String, Value)>,
}

/// Whether no name occurs twice in a list of named values.
pub open spec fn distinct_names(entries: Seq<(Seq<char>, ValueView)>) -> bool {
    forall|i: int, j: int| 0 <= i < j < entries.len() ==> entries[i].0 != entries[j].0
}

/// Whether a list of named values holds the name `key`.
pub open spec fn has_name(entries: Seq<(Seq<char>, ValueView)>, key: Seq<char>) -> bool {
    exists|i: int| 0 <= i < entries.len() && #[trigger] entries[i].0 == key
}

/// The first place in a list of named values that holds the name `key`, or
/// the length of the list where none does.
pub open spec fn name_index(entries: Seq<(Seq<char>, ValueView)>, key: Seq<char>) -> int
    decreases entries.len(),
{
    if entries.len() == 0 || entries[0].0 == key {
        0
    } else {
        1 + name_index(entries.skip(1), key)
    }
}

/// `name_index` is within the list or just behind it; where it is within,
/// the name there is `key`; no earlier name is.
pub proof fn lemma_name_index(entries: Seq<(Seq<char>, ValueView)>, key: Seq<char>)
    ensures
        0 <= name_index(entries, key) <= entries.len(),
        name_index(entries, key) < entries.len() ==> entries[name_index(entries, key)].0 == key,
        forall|j: int| 0 <= j < name_index(entries, key) ==> (#[trigger] entries[j]).0 != key,
    decreases entries.len(),
{
    if entries.len() == 0 || entries[0].0 == key {
    } else {
        lemma_name_index(entries.skip(1), key);
        assert forall|j: int| 0 <= j < name_index(entries, key) implies (#[trigger] entries[j]).0
            != key by {
            if j > 0 {
                assert(entries.skip(1)[j - 1] == entries[j]);
            }
        }
    }
}

/// A list of named values with `value` under the name `key`: in the place
/// where the name stands, or behind all others where it is new.
pub open spec fn entries_with(
    entries: Seq<(Seq<char>, ValueView)>,
    key: Seq<char>,
    value: ValueView,
) -> Seq<(Seq<char>, ValueView)> {
    let i = name_index(entries, key);
    if 0 <= i < entries.len() {
        entries.update(i, (key, value))
    } else {
        entries.push((key, value))
    }
}

/// A list of named values without the first entry of the name `key`.
pub open spec fn entries_without(entries: Seq<(Seq<char>, ValueView)>, key: Seq<char>) -> Seq<
    (Seq<char>, ValueView),
> {
    let i = name_index(entries, key);
    if 0 <= i < entries.len() {
        entries.remove(i)
    } else {
        entries
    }
}

/// The map that a list of named values stands for. Where a name occurs more
/// than once, its last value counts.
pub open spec fn entries_map(entries: Seq<(Seq<char>, ValueView)>) -> Map<Seq<char>, ValueView>
    decreases entries.len(),
{
    if entries.len() == 0 {
        Map::empty()
    } else {
        entries_map(entries.drop_last()).insert(entries.last().0, entries.last().1)
    }
}

/// The map of a list holds exactly the names of the list.
pub proof fn lemma_entries_map_dom(entries: Seq<(Seq<char>, ValueView)>)
    ensures
        forall|k: Seq<char>| #[trigger] entries_map(entries).dom().contains(k) <==> has_name(entries, k),
        entries_map(entries).dom().finite(),
    decreases entries.len(),
{
    if entries.len() > 0 {
        let front = entries.drop_last();
        lemma_entries_map_dom(front);
        assert forall|k: Seq<char>| #[trigger]
            entries_map(entries).dom().contains(k) <==> has_name(entries, k) by {
            if has_name(entries, k) {
                let i = choose|i: int| 0 <= i < entries.len() && #[trigger] entries[i].0 == k;
                if i < entries.len() - 1 {
                    assert(front[i].0 == k);
                }
            }
            if has_name(front, k) {
                let i = choose|i: int| 0 <= i < front.len() && #[trigger] front[i].0 == k;
                assert(entries[i].0 == k);
            }
            if entries.last().0 == k {
                assert(entries[entries.len() - 1].0 == k);
            }
        }
    } else {
        assert forall|k: Seq<char>| #[trigger]
            entries_map(entries).dom().contains(k) <==> has_name(entries, k) by {}
    }
}

/// Where no name occurs twice, the map of a list holds each entry's value
/// under its name.
pub proof fn lemma_entries_map_at(entries: Seq<(Seq<char>, ValueView)>, i: int)
    requires
        distinct_names(entries),
        0 <= i < entries.len(),
    ensures
        entries_map(entries).dom().contains(entries[i].0),
        entries_map(entries)[entries[i].0] == entries[i].1,
    decreases entries.len(),
{
    if i < entries.len() - 1 {
        let front = entries.drop_last();
        assert(front[i] == entries[i]);
        lemma_entries_map_at(front, i);
    }
}

/// Appending an entry inserts it into the map.
pub proof fn lemma_entries_map_push(
    entries: Seq<(Seq<char>, ValueView)>,
    key: Seq<char>,
    value: ValueView,
)
    ensures
        entries_map(entries.push((key, value))) == entries_map(entries).insert(key, value),
{
    assert(entries.push((key, value)).drop_last() == entries);
}

/// Where no name occurs twice, giving an entry a new value is inserting that
/// value under the entry's name.
pub proof fn lemma_entries_map_update(
    entries: Seq<(Seq<char>, ValueView)>,
    i: int,
    value: ValueView,
)
    requires
        distinct_names(entries),
        0 <= i < entries.len(),
    ensures
        entries_map(entries.update(i, (entries[i].0, value))) == entries_map(entries).insert(
            entries[i].0,
            value,
        ),
        distinct_names(entries.update(i, (entries[i].0, value))),
    decreases entries.len(),
{
    let updated = entries.update(i, (entries[i].0, value));
    let front = entries.drop_last();
    if i == entries.len() - 1 {
        assert(updated.drop_last() == front);
        assert(entries_map(updated) =~= entries_map(entries).insert(entries[i].0, value));
    } else {
        assert(front[i] == entries[i]);
        lemma_entries_map_update(front, i, value);
        assert(updated.drop_last() == front.update(i, (entries[i].0, value)));
        assert(entries.last().0 != entries[i].0);
        assert(entries_map(updated) =~= entries_map(entries).insert(entries[i].0, value));
    }
}

/// Where no name occurs twice, taking an entry out of the list removes its
/// name from the map.
pub proof fn lemma_entries_map_remove(entries: Seq<(Seq<char>, ValueView)>, i: int)
    requires
        distinct_names(entries),
        0 <= i < entries.len(),
    ensures
        entries_map(entries.remove(i)) == entries_map(entries).remove(entries[i].0),
        distinct_names(entries.remove(i)),
    decreases entries.len(),
{
    let removed = entries.remove(i);
    let front = entries.drop_last();
    if i == entries.len() - 1 {
        assert(removed == front);
        lemma_entries_map_dom(front);
        assert(!has_name(front, entries[i].0));
        assert(entries_map(removed) =~= entries_map(entries).remove(entries[i].0));
    } else {
        assert(front[i] == entries[i]);
        lemma_entries_map_remove(front, i);
        assert(removed.drop_last() == front.remove(i));
        assert(removed.last() == entries.last());
        assert(entries.last().0 != entries[i].0);
        assert(entries_map(removed) =~= entries_map(entries).remove(entries[i].0));
    }
}

/// The names and values of a list of attributes.
pub open spec fn pairs(entries: Seq<(String, Value)>) -> Seq<(Seq<char>, ValueView)> {
    entries.map_values(|e: (String, Value)| (e.0@, e.1@))
}

impl Attributes {
    /// No name occurs twice.
    #[verifier::type_invariant]
    pub closed spec fn well_formed(&self) -> bool {
        distinct_names(self.entries())
    }

    /// The attributes in the order in which they are kept, each a name and
    /// its value.
    pub closed spec fn entries(&self) -> Seq<(Seq<char>, ValueView)> {
        pairs(self.entries@)
    }

    /// No attributes.
    pub fn new() -> (r: Attributes)
        ensures
            r.entries() == Seq::<(Seq<char>, ValueView)>::empty(),
            r@ == Map::<Seq<char>, ValueView>::empty(),
    {
        let r = Attributes { entries: Vec::new() };
        assert(r.entries() == Seq::<(Seq<char>, ValueView)>::empty());
        r
    }

    /// How many attributes there are.
    pub fn len(&self) -> (n: usize)
        ensures
            n == self.entries().len(),
            n == self@.dom().len(),
    {
        proof {
            use_type_invariant(self);
            lemma_distinct_len(self.entries());
        }
        self.entries.len()
    }

    /// Where in the list the attribute named `key` stands.
    fn position(&self, key: &str) -> (r: Option<usize>)
        ensures
            match r {
                Some(i) => i < self.entries().len() && self.entries()[i as int].0 == key@ && i
                    == name_index(self.entries(), key@),
                None => !has_name(self.entries(), key@) && name_index(self.entries(), key@)
                    == self.entries().len(),
            },
    {
        proof {
            lemma_name_index(self.entries(), key@);
        }
        let mut i: usize = 0;
        while i < self.entries.len()
            invariant
                i <= self.entries.len(),
                forall|j: int| 0 <= j < i ==> (#[trigger] self.entries()[j]).0 != key@,
            decreases self.entries.len() - i,
        {
            if str_eq(self.entries[i].0.as_str(), key) {
                proof {
                    lemma_name_index(self.entries(), key@);
                    assert(self.entries()[i as int].0 == key@);
                    let k = name_index(self.entries(), key@);
                    if k < i {
                        assert(self.entries()[k].0 == key@);
                    }
                }
                return Some(i);
            }
            i += 1;
        }
        None
    }

    /// Whether there is an attribute named `key`.
    pub fn contains_key(&self, key: &str) -> (r: bool)
        ensures
            r == self@.dom().contains(key@),
    {
        proof {
            lemma_entries_map_dom(self.entries());
        }
        self.position(key).is_some()
    }

    /// The value of the attribute named `key`, if there is one.
    pub fn get(&self, key: &str) -> (r: Option<&Value>)
        ensures
            r is Some <==> self@.dom().contains(key@),
            r is Some ==> r->Some_0@ == self@[key@],
    {
        proof {
            use_type_invariant(self);
            lemma_entries_map_dom(self.entries());
        }
        match self.position(key) {
            Some(i) => {
                proof {
                    lemma_entries_map_at(self.entries(), i as int);
                }
                Some(&self.entries[i].1)
            },
            None => None,
        }
    }

    /// Gives the attribute named `key` the value `value`, and returns the
    /// value it had. A new name is added behind the others.
    pub fn insert(&mut self, key: String, value: Value) -> (r: Option<Value>)
        ensures
            final(self)@ == old(self)@.insert(key@, value@),
            r is Some <==> old(self)@.dom().contains(key@),
            r is Some ==> r->Some_0@ == old(self)@[key@],
            final(self).entries() == entries_with(old(self).entries(), key@, value@),
    {
        proof {
            use_type_invariant(&*self);
            lemma_entries_map_dom(self.entries());
        }
        match self.position(key.as_str()) {
            Some(i) => {
                proof {
                    lemma_entries_map_at(self.entries(), i as int);
                    lemma_entries_map_update(self.entries(), i as int, value@);
                }
                let ghost before = self.entries();
                let mut entries: Vec<(String, Value)> = Vec::new();
                std::mem::swap(&mut self.entries, &mut entries);
                let slot = entries.remove(i);
                entries.insert(i, (slot.0, value));
                assert(pairs(entries@) == before.update(i as int, (key@, value@)));
                self.entries = entries;
                Some(slot.1)
            },
            None => {
                proof {
                    lemma_entries_map_push(self.entries(), key@, value@);
                }
                let ghost before = self.entries();
                let mut entries: Vec<(String, Value)> = Vec::new();
                std::mem::swap(&mut self.entries, &mut entries);
                entries.push((key, value));
                assert(pairs(entries@) == before.push((key@, value@)));
                assert(distinct_names(pairs(entries@)));
                self.entries = entries;
                None
            },
        }
    }

    /// Takes the attribute named `key` out, and returns its value. The others
    /// keep their order.
    pub fn remove(&mut self, key: &str) -> (r: Option<Value>)
        ensures
            final(self)@ == old(self)@.remove(key@),
            r is Some <==> old(self)@.dom().contains(key@),
            r is Some ==> r->Some_0@ == old(self)@[key@],
            final(self).entries() == entries_without(old(self).entries(), key@),
    {
        proof {
            use_type_invariant(&*self);
            lemma_entries_map_dom(self.entries());
        }
        match self.position(key) {
            Some(i) => {
                proof {
                    lemma_entries_map_at(self.entries(), i as int);
                    lemma_entries_map_remove(self.entries(), i as int);
                }
                let ghost before = self.entries();
                let mut entries: Vec<(String, Value)> = Vec::new();
                std::mem::swap(&mut self.entries, &mut entries);
                let slot = entries.remove(i);
                assert(pairs(entries@) == before.remove(i as int));
                self.entries = entries;
                Some(slot.1)
            },
            None => {
                assert(self@ =~= old(self)@.remove(key@));
                None
            },
        }
    }

    /// The name of the attribute at place `i`.
    pub fn name_at(&self, i: usize) -> (r: &str)
        requires
            i < self.entries().len(),
        ensures
            r@ == self.entries()[i as int].0,
    {
        self.entries[i].0.as_str()
    }

    /// The value of the attribute at place `i`.
    pub fn value_at(&self, i: usize) -> (r: &Value)
        requires
            i < self.entries().len(),
        ensures
            r@ == self.entries()[i as int].1,
    {
        &self.entries[i].1
    }
}

/// A list in which no name occurs twice has as many entries as its map has
/// names.
pub proof fn lemma_distinct_len(entries: Seq<(Seq<char>, ValueView)>)
    requires
        distinct_names(entries),
    ensures
        entries_map(entries).dom().len() == entries.len(),
        entries_map(entries).dom().finite(),
    decreases entries.len(),
{
    lemma_entries_map_dom(entries);
    if entries.len() > 0 {
        let front = entries.drop_last();
        lemma_distinct_len(front);
        lemma_entries_map_dom(front);
        assert(!has_name(front, entries.last().0)) by {
            if has_name(front, entries.last().0) {
                let i = choose|i: int| 0 <= i < front.len() && #[trigger] front[i].0 == entries.last().0;
                assert(entries[i].0 == entries[entries.len() - 1].0);
            }
        }
        assert(entries_map(entries).dom() =~= entries_map(front).dom().insert(entries.last().0));
    }
}

impl View for Attributes {
    type V = Map<Seq<char>, ValueView>;

    open spec fn view(&self) -> Map<Seq<char>, ValueView> {
        entries_map(self.entries())
    }
}

impl Default for Attributes {
    fn default() -> (r: Attributes)
        ensures
            r@ == Map::<Seq<char>, ValueView>::empty(),
    {
        Attributes::new()
    }
}

impl Clone for Attributes {
    fn clone(&self) -> (r: Attributes)
        ensures
            r.entries() == self.entries(),
            r@ == self@,
    {
        proof {
            use_type_invariant(self);
        }
        let mut entries: Vec<(String, Value)> = Vec::new();
        let mut i: usize = 0;
        while i < self.entries.len()
            invariant
                i <= self.entries.len(),
                pairs(entries@) == self.entries().take(i as int),
            decreases self.entries.len() - i,
        {
            let key = self.entries[i].0.clone();
            let value = self.entries[i].1.clone();
            let ghost before = pairs(entries@);
            entries.push((key, value));
            assert(pairs(entries@) == before.push(self.entries()[i as int]));
            i += 1;
        }
        assert(self.entries().take(self.entries.len() as int) == self.entries());
        Attributes { entries }
    }
}

impl PartialEq for Attributes {
    fn eq(&self, other: &Attributes) -> (r: bool) {
        proof {
            use_type_invariant(self);
            use_type_invariant(other);
            lemma_distinct_len(self.entries());
            lemma_distinct_len(other.entries());
            lemma_entries_map_dom(self.entries());
        }
        if self.entries.len() != other.entries.len() {
            return false;
        }
        let mut i: usize = 0;
        while i < self.entries.len()
            invariant
                i <= self.entries.len(),
                distinct_names(self.entries()),
                forall|j: int|
                    0 <= j < i ==> other@.dom().contains((#[trigger] self.entries()[j]).0)
                        && other@[self.entries()[j].0] == self.entries()[j].1,
            decreases self.entries.len() - i,
        {
            proof {
                lemma_entries_map_at(self.entries(), i as int);
            }
            match other.get(self.entries[i].0.as_str()) {
                Some(theirs) => {
                    if !self.entries[i].1.eq(theirs) {
                        return false;
                    }
                },
                None => {
                    return false;
                },
            }
            i += 1;
        }
        proof {
            assert forall|k: Seq<char>| self@.dom().contains(k) implies other@.dom().contains(k)
                && other@[k] == self@[k] by {
                let j = choose|j: int| 0 <= j < self.entries().len() && #[trigger] self.entries()[j].0 == k;
                lemma_entries_map_at(self.entries(), j);
            }
            vstd::set_lib::lemma_subset_equality(self@.dom(), other@.dom());
            assert(self@ =~= other@);
        }
        true
    }
}

impl PartialEqSpecImpl for Attributes {
    open spec fn obeys_eq_spec() -> bool {
        true
    }

    open spec fn eq_spec(&self, other: &Attributes) -> bool {
        self@ == other@
    }
}

/// A node of the tree: a name, attributes, and child elements in order.
#[derive(Debug)]
pub struct Element {
    /// The element's name.
    pub name: String,
    /// The element's attributes.
    pub attributes: Attributes,
    /// The element's child elements.
    pub children: Vec<Element>,
}

/// What an [`Element`] holds: its name, its attributes as a map from names
/// to values, and what its children hold.
pub ghost struct ElementView {
    pub name: Seq<char>,
    pub attributes: Map<Seq<char>, ValueView>,
    pub children: Seq<ElementView>,
}

impl Element {
    /// What this element holds.
    pub open spec fn contents(&self) -> ElementView
        decreases self,
    {
        ElementView {
            name: self.name@,
            attributes: self.attributes@,
            children: Seq::new(
                self.children@.len(),
                |i: int|
                    if 0 <= i < self.children@.len() {
                        self.children@[i].contents()
                    } else {
                        arbitrary()
                    },
            ),
        }
    }
}

impl View for Element {
    type V = ElementView;

    open spec fn view(&self) -> ElementView {
        self.contents()
    }
}

/// What each element of a sequence holds.
pub open spec fn element_views(elements: Seq<Element>) -> Seq<ElementView> {
    elements.map_values(|e: Element| e@)
}

/// The children of an element's view are the views of its children.
pub broadcast proof fn lemma_children_view(e: Element)
    ensures
        (#[trigger] e@).children == element_views(e.children@),
{
    assert(e@.children.len() == e.children@.len());
    assert forall|i: int| 0 <= i < e.children@.len() implies e@.children[i] == element_views(
        e.children@,
    )[i] by {}
    assert(e@.children =~= element_views(e.children@));
}

/// Copies a list of elements.
pub fn clone_elements(elements: &Vec<Element>) -> (r: Vec<Element>)
    ensures
        element_views(r@) == element_views(elements@),
    decreases elements,
{
    let mut r: Vec<Element> = Vec::new();
    let mut i: usize = 0;
    while i < elements.len()
        invariant
            i <= elements.len(),
            element_views(r@) == element_views(elements@).take(i as int),
        decreases elements.len() - i,
    {
        let ghost before = element_views(r@);
        let child = elements[i].clone();
        r.push(child);
        assert(element_views(r@) == before.push(elements@[i as int]@));
        i += 1;
    }
    assert(element_views(elements@).take(elements.len() as int) == element_views(elements@));
    r
}

impl Clone for Element {
    fn clone(&self) -> (r: Element)
        ensures
            r@ == self@,
        decreases self,
    {
        let r = Element {
            name: self.name.clone(),
            attributes: self.attributes.clone(),
            children: clone_elements(&self.children),
        };
        proof {
            lemma_children_view(r);
            lemma_children_view(*self);
        }
        r
    }
}

/// Whether two lists hold equal elements in the same order.
pub fn elements_eq(a: &Vec<Element>, b: &Vec<Element>) -> (r: bool)
    ensures
        r == (element_views(a@) == element_views(b@)),
    decreases a,
{
    if a.len() != b.len() {
        assert(element_views(a@).len() != element_views(b@).len());
        return false;
    }
    let mut i: usize = 0;
    while i < a.len()
        invariant
            i <= a.len(),
            a.len() == b.len(),
            element_views(a@).take(i as int) == element_views(b@).take(i as int),
        decreases a.len() - i,
    {
        if !a[i].eq(&b[i]) {
            assert(element_views(a@)[i as int] != element_views(b@)[i as int]);
            return false;
        }
        assert(element_views(a@).take(i as int + 1) == element_views(a@).take(i as int).push(
            a@[i as int]@,
        ));
        assert(element_views(b@).take(i as int + 1) == element_views(b@).take(i as int).push(
            b@[i as int]@,
        ));
        i += 1;
    }
    assert(element_views(a@).take(a.len() as int) == element_views(a@));
    assert(element_views(b@).take(b.len() as int) == element_views(b@));
    true
}

impl PartialEq for Element {
    fn eq(&self, other: &Element) -> (r: bool)
        decreases self,
    {
        proof {
            lemma_children_view(*self);
            lemma_children_view(*other);
        }
        str_eq(self.name.as_str(), other.name.as_str()) && self.attributes.eq(&other.attributes)
            && elements_eq(&self.children, &other.children)
    }
}

impl PartialEqSpecImpl for Element {
    open spec fn obeys_eq_spec() -> bool {
        true
    }

    open spec fn eq_spec(&self, other: &Element) -> bool {
        self@ == other@
    }
}

/// The bytes of `s` behind its first `n`, and none where it has no more
/// than `n`.
pub open spec fn advance(s: Seq<u8>, n: nat) -> Seq<u8> {
    if n <= s.len() {
        s.skip(n as int)
    } else {
        Seq::empty()
    }
}

/// The error of bytes that end where more are needed.
pub open spec fn end_of_input() -> LoadErrorView {
    LoadErrorView::IoError(StreamError::UnexpectedEof)
}

/// The shortest strings that are written in full rather than through the
/// string table: they are unlikely to occur twice.
pub const LONG_STRING: usize = 64;

/// Reads a value from the front of `s`: a tag byte, and what the tag calls
/// for. The result is the value and how many bytes it took. `lookup` is the
/// string table of the document.
#[verifier::opaque]
pub open spec fn parse_value(s: Seq<u8>, lookup: Seq<Seq<char>>) -> Result<
    (ValueView, nat),
    LoadErrorView,
> {
    let rest = advance(s, 1);
    if s.len() < 1 {
        Err(end_of_input())
    } else if s[0] == 0 {
        if rest.len() < 1 {
            Err(end_of_input())
        } else {
            Ok((ValueView::Boolean(rest[0] > 0), 2))
        }
    } else if s[0] == 1 {
        if rest.len() < 1 {
            Err(end_of_input())
        } else {
            Ok((ValueView::Integer(rest[0] as i32), 2))
        }
    } else if s[0] == 2 {
        if rest.len() < 2 {
            Err(end_of_input())
        } else {
            Ok((ValueView::Integer(as_signed(le_value(rest.take(2)), 16) as i32), 3))
        }
    } else if s[0] == 3 {
        if rest.len() < 4 {
            Err(end_of_input())
        } else {
            Ok((ValueView::Integer(as_signed(le_value(rest.take(4)), 32) as i32), 5))
        }
    } else if s[0] == 4 {
        if rest.len() < 4 {
            Err(end_of_input())
        } else {
            Ok((ValueView::Float(Float32 { bits: le_value(rest.take(4)) as u32 }), 5))
        }
    } else if s[0] == 5 {
        match parse_lookup(rest, lookup.len()) {
            Ok(i) => Ok((ValueView::String(lookup[i as int]), 3)),
            Err(e) => Err(e),
        }
    } else if s[0] == 6 {
        match parse_string(rest) {
            Ok((text, n)) => Ok((ValueView::String(text), 1 + n)),
            Err(e) => Err(LoadErrorView::IoError(e)),
        }
    } else if s[0] == 7 {
        match parse_rle_string(rest) {
            Ok((text, n)) => Ok((ValueView::RleString(text), 1 + n)),
            Err(e) => Err(LoadErrorView::IoError(e)),
        }
    } else {
        Err(LoadErrorView::InvalidValueType(s[0]))
    }
}

/// The bytes of an integer value: the shortest of three forms. An integer
/// from 0 to 255 takes tag 1 and one byte; any other that fits sixteen bits
/// takes tag 2 and two bytes; the rest take tag 3 and four bytes.
pub open spec fn integer_bytes(i: i32) -> Seq<u8> {
    if 0 <= i <= 255 {
        seq![1u8, i as u8]
    } else if -32768 <= i <= 32767 {
        seq![2u8] + le_bytes(as_unsigned(i as int, 16), 2)
    } else {
        seq![3u8] + le_bytes(as_unsigned(i as int, 32), 4)
    }
}

/// The bytes of a text value and what writing it makes of the string table.
/// A text of 64 bytes or more is written in full under tag 6. A shorter one
/// is interned and written as its place in the table under tag 5, unless the
/// table is full and does not hold it: then it is written in full as well.
pub open spec fn text_bytes(text: Seq<char>, table: Seq<Seq<char>>) -> (Seq<u8>, Seq<Seq<char>>) {
    let interned = spec_intern(table, text);
    if encode_utf8(text).len() >= LONG_STRING {
        (seq![6u8] + string_bytes(text), table)
    } else if interned.1 is Some {
        (seq![5u8] + le_bytes(interned.1->Some_0 as nat, 2), interned.0)
    } else {
        (seq![6u8] + string_bytes(text), table)
    }
}

/// Writing a text keeps the string table orderly: no string twice, and no
/// more strings than the limit. A text of 64 bytes or more leaves the table
/// as it is, and so does any text once the table is full; a text that was
/// written before finds its one place again.
pub proof fn lemma_text_interning(text: Seq<char>, table: Seq<Seq<char>>)
    requires
        orderly(table),
    ensures
        orderly(text_bytes(text, table).1),
        encode_utf8(text).len() >= LONG_STRING ==> text_bytes(text, table).1 == table,
        table.len() == TABLE_LIMIT ==> text_bytes(text, table).1 == table,
        text_bytes(text, text_bytes(text, table).1) == (
            text_bytes(text, table).0,
            text_bytes(text, table).1,
        ),
{
    lemma_intern(table, text);
    if spec_intern(table, text).1 is Some {
        lemma_intern_twice(table, text);
    }
}

/// The bytes of a value and what writing it makes of the string table, or
/// the reason why the value cannot be written.
pub open spec fn encode_value(v: ValueView, table: Seq<Seq<char>>) -> Result<
    (Seq<u8>, Seq<Seq<char>>),
    StoreError,
> {
    match v {
        ValueView::Boolean(b) => Ok((seq![0u8, if b { 1u8 } else { 0u8 }], table)),
        ValueView::Integer(i) => Ok((integer_bytes(i), table)),
        ValueView::Float(x) => Ok((seq![4u8] + le_bytes(x.bits as nat, 4), table)),
        ValueView::String(text) => Ok(text_bytes(text, table)),
        ValueView::RleString(text) => if rle_pairs(encode_utf8(text)).len() > RLE_LIMIT {
            Err(StoreError::TextTooLong)
        } else {
            Ok((seq![7u8] + rle_string_bytes(text), table))
        },
    }
}

/// The length of the text of a value that is a plainly written text,
/// counted in bytes.
pub open spec fn value_text_len(v: ValueView) -> nat {
    match v {
        ValueView::String(text) => encode_utf8(text).len(),
        _ => 0,
    }
}

/// Whether the plainly written texts among the values of a list of
/// attributes all have lengths that sixty-four bits can hold.
pub open spec fn texts_fit(entries: Seq<(Seq<char>, ValueView)>) -> bool {
    forall|i: int| 0 <= i < entries.len() ==> value_text_len((#[trigger] entries[i]).1) <= u64::MAX
}

/// The error of a failure to read bytes.
fn io_error(e: StreamError) -> (r: LoadError)
    ensures
        r@ == LoadErrorView::IoError(e),
{
    LoadError::IoError(e)
}

impl Value {
    /// Reads a value. `lookup` is the string table of the document. Where
    /// no value can be read, the reader stays where it is.
    pub fn decode(reader: &mut Reader<'_>, lookup: &Vec<String>) -> (r: Result<Value, LoadError>)
        ensures
            match parse_value(old(reader)@, string_views(lookup@)) {
                Ok((v, n)) => r is Ok && r->Ok_0@ == v && n <= old(reader)@.len() && final(reader)@
                    == old(reader)@.skip(n as int),
                Err(e) => r is Err && r->Err_0@ == e && final(reader)@ == old(reader)@,
            },
    {
        let mut cursor = *reader;
        let r = Value::read(&mut cursor, lookup);
        if r.is_ok() {
            *reader = cursor;
        }
        r
    }

    /// Reads a value, and moves the reader also where none can be read.
    fn read(reader: &mut Reader<'_>, lookup: &Vec<String>) -> (r: Result<Value, LoadError>)
        ensures
            match parse_value(old(reader)@, string_views(lookup@)) {
                Ok((v, n)) => r is Ok && r->Ok_0@ == v && n <= old(reader)@.len() && final(reader)@
                    == old(reader)@.skip(n as int),
                Err(e) => r is Err && r->Err_0@ == e,
            },
    {
        proof {
            reveal(parse_value);
        }
        let ghost s = reader@;
        let tag = match reader.read_u8() {
            Ok(tag) => tag,
            Err(e) => {
                return Err(io_error(e));
            },
        };
        let ghost rest = reader@;
        assert(rest == advance(s, 1));
        let value = match tag {
            0 => match reader.read_u8() {
                Ok(byte) => Value::Boolean(byte > 0),
                Err(e) => {
                    return Err(io_error(e));
                },
            },
            1 => match reader.read_u8() {
                Ok(byte) => Value::Integer(byte as i32),
                Err(e) => {
                    return Err(io_error(e));
                },
            },
            2 => match reader.read_i16() {
                Ok(short) => Value::Integer(short as i32),
                Err(e) => {
                    return Err(io_error(e));
                },
            },
            3 => match reader.read_i32() {
                Ok(long) => Value::Integer(long),
                Err(e) => {
                    return Err(io_error(e));
                },
            },
            4 => match reader.read_u32() {
                Ok(bits) => Value::Float(Float32::from_bits(bits)),
                Err(e) => {
                    return Err(io_error(e));
                },
            },
            5 => match reader.lookup_string(lookup) {
                Ok(text) => Value::String(text.to_owned()),
                Err(e) => {
                    return Err(e);
                },
            },
            6 => match reader.read_string() {
                Ok(text) => Value::String(text),
                Err(e) => {
                    return Err(io_error(e));
                },
            },
            7 => match reader.read_rle_string() {
                Ok(text) => Value::RleString(text),
                Err(e) => {
                    return Err(io_error(e));
                },
            },
            invalid => {
                return Err(LoadError::InvalidValueType(invalid));
            },
        };
        proof {
            let n = parse_value(s, string_views(lookup@))->Ok_0.1;
            assert(reader@ == s.skip(n as int)) by {
                assert(reader@.len() + n == s.len());
                assert(reader@ =~= s.skip(n as int));
            }
        }
        Ok(value)
    }

    /// Writes the value behind `out`. A short text is interned into
    /// `table`. Nothing is written where the value cannot be.
    pub fn encode(&self, out: &mut Vec<u8>, table: &mut StringTable) -> (r: Result<(), StoreError>)
        ensures
            value_text_len(self@) <= u64::MAX,
            old(table).strings().is_prefix_of(final(table).strings()),
            match encode_value(self@, old(table).strings()) {
                Ok((bytes, strings)) => r is Ok && final(out)@ == old(out)@ + bytes && final(table).strings() == strings,
                Err(e) => r == Err::<(), StoreError>(e) && final(out)@ == old(out)@ && final(table).strings() == old(table).strings(),
            },
    {
        match self {
            Value::Boolean(b) => {
                out.push(0);
                out.push(if *b { 1 } else { 0 });
                assert(out@ == old(out)@ + seq![0u8, if *b { 1u8 } else { 0u8 }]);
                Ok(())
            },
            Value::Integer(number) => {
                let number = *number;
                if 0 <= number && number <= 255 {
                    out.push(1);
                    out.push(number as u8);
                    assert(out@ == old(out)@ + seq![1u8, number as u8]);
                } else if -32768 <= number && number <= 32767 {
                    out.push(2);
                    out.extend_from_slice(crate::wire::write_i16(number as i16).as_slice());
                    assert(out@ == old(out)@ + integer_bytes(number));
                } else {
                    out.push(3);
                    out.extend_from_slice(crate::wire::write_i32(number).as_slice());
                    assert(out@ == old(out)@ + integer_bytes(number));
                }
                Ok(())
            },
            Value::Float(float) => {
                out.push(4);
                out.extend_from_slice(crate::wire::write_u32(float.to_bits()).as_slice());
                assert(out@ == old(out)@ + (seq![4u8] + le_bytes(float.bits as nat, 4)));
                Ok(())
            },
            Value::String(text) => {
                // Arbitrary cutoff for strings that are too long to likely
                // be repeated, e.g. tilemaps
                let length = text.as_str().as_bytes().len();
                if length < LONG_STRING {
                    match table.intern(text.as_str()) {
                        Some(index) => {
                            out.push(5);
                            out.extend_from_slice(crate::wire::write_u16(index).as_slice());
                            assert(out@ == old(out)@ + (seq![5u8] + le_bytes(index as nat, 2)));
                            return Ok(());
                        },
                        None => {},
                    }
                }
                out.push(6);
                out.write_string(text.as_str());
                assert(out@ == old(out)@ + (seq![6u8] + string_bytes(text@)));
                Ok(())
            },
            Value::RleString(text) => {
                let ghost before = out@;
                out.push(7);
                match out.write_rle_string(text.as_str()) {
                    Ok(()) => {
                        assert(out@ == before + (seq![7u8] + rle_string_bytes(text@)));
                        Ok(())
                    },
                    Err(e) => {
                        let _ = out.pop();
                        assert(out@ == before);
                        Err(e)
                    },
                }
            },
        }
    }
}

/// Reads an attribute from the front of `s`: the place of its name in the
/// string table, then its value.
#[verifier::opaque]
pub open spec fn parse_attribute(s: Seq<u8>, lookup: Seq<Seq<char>>) -> Result<
    ((Seq<char>, ValueView), nat),
    LoadErrorView,
> {
    match parse_lookup(s, lookup.len()) {
        Err(e) => Err(e),
        Ok(i) => match parse_value(advance(s, 2), lookup) {
            Err(e) => Err(e),
            Ok((value, n)) => Ok(((lookup[i as int], value), 2 + n)),
        },
    }
}

/// Reads `count` attributes from the front of `s` into a map. Of two
/// attributes with one name the later counts.
pub open spec fn parse_attributes(s: Seq<u8>, lookup: Seq<Seq<char>>, count: nat) -> Result<
    (Map<Seq<char>, ValueView>, nat),
    LoadErrorView,
>
    decreases count,
{
    if count == 0 {
        Ok((Map::empty(), 0))
    } else {
        match parse_attributes(s, lookup, (count - 1) as nat) {
            Err(e) => Err(e),
            Ok((attributes, n)) => match parse_attribute(advance(s, n), lookup) {
                Err(e) => Err(e),
                Ok(((key, value), m)) => Ok((attributes.insert(key, value), n + m)),
            },
        }
    }
}

/// Reads an element from the front of `s`: the place of its name in the
/// string table, a count of attributes in one byte, the attributes, a count
/// of children in two bytes, and the children. The result is the element
/// and how many bytes it took.
pub open spec fn parse_element(s: Seq<u8>, lookup: Seq<Seq<char>>) -> Result<
    (ElementView, nat),
    LoadErrorView,
>
    decreases s.len(), 0nat, 0nat,
{
    match parse_lookup(s, lookup.len()) {
        Err(e) => Err(e),
        Ok(name) => if s.len() < 3 {
            Err(end_of_input())
        } else {
            match parse_attributes(advance(s, 3), lookup, s[2] as nat) {
                Err(e) => Err(e),
                Ok((attributes, n)) => {
                    let rest = advance(s, 3 + n);
                    if rest.len() < 2 {
                        Err(end_of_input())
                    } else {
                        match parse_children(advance(s, 5 + n), lookup, le_value(rest.take(2))) {
                            Err(e) => Err(e),
                            Ok((children, m)) => Ok(
                                (
                                    ElementView { name: lookup[name as int], attributes, children },
                                    5 + n + m,
                                ),
                            ),
                        }
                    }
                },
            }
        },
    }
}

/// Reads `count` elements from the front of `s`, one after another.
pub open spec fn parse_children(s: Seq<u8>, lookup: Seq<Seq<char>>, count: nat) -> Result<
    (Seq<ElementView>, nat),
    LoadErrorView,
>
    decreases s.len(), 1nat, count,
{
    if count == 0 {
        Ok((Seq::empty(), 0))
    } else {
        match parse_children(s, lookup, (count - 1) as nat) {
            Err(e) => Err(e),
            Ok((children, n)) => match parse_element(advance(s, n), lookup) {
                Err(e) => Err(e),
                Ok((child, m)) => Ok((children.push(child), n + m)),
            },
        }
    }
}

/// Once an attribute has failed, asking for more attributes fails alike.
pub proof fn lemma_parse_attributes_error_stays(
    s: Seq<u8>,
    lookup: Seq<Seq<char>>,
    n: nat,
    count: nat,
)
    requires
        n <= count,
        parse_attributes(s, lookup, n) is Err,
    ensures
        parse_attributes(s, lookup, count) == parse_attributes(s, lookup, n),
    decreases count,
{
    if n < count {
        lemma_parse_attributes_error_stays(s, lookup, n, (count - 1) as nat);
    }
}

/// Once a child has failed, asking for more children fails alike.
pub proof fn lemma_parse_children_error_stays(
    s: Seq<u8>,
    lookup: Seq<Seq<char>>,
    n: nat,
    count: nat,
)
    requires
        n <= count,
        parse_children(s, lookup, n) is Err,
    ensures
        parse_children(s, lookup, count) == parse_children(s, lookup, n),
    decreases count,
{
    if n < count {
        lemma_parse_children_error_stays(s, lookup, n, (count - 1) as nat);
    }
}

/// The most attributes that an element can have: their count is written in
/// one byte.
pub const MAX_ATTRIBUTES: usize = 255;

/// The most children that an element can have: their count is written in
/// two bytes.
pub const MAX_CHILDREN: usize = 65535;

/// The bytes of a list of attributes and what writing them makes of the
/// string table: for each attribute in turn the place of its name, which is
/// interned, and its value.
pub open spec fn encode_entries(entries: Seq<(Seq<char>, ValueView)>, table: Seq<Seq<char>>) -> Result<
    (Seq<u8>, Seq<Seq<char>>),
    StoreError,
>
    decreases entries.len(),
{
    if entries.len() == 0 {
        Ok((Seq::empty(), table))
    } else {
        match encode_entries(entries.drop_last(), table) {
            Err(e) => Err(e),
            Ok((bytes, strings)) => {
                let named = spec_intern(strings, entries.last().0);
                match named.1 {
                    None => Err(StoreError::TooManyStrings),
                    Some(i) => match encode_value(entries.last().1, named.0) {
                        Err(e) => Err(e),
                        Ok((value, last)) => Ok((bytes + le_bytes(i as nat, 2) + value, last)),
                    },
                }
            },
        }
    }
}

impl Element {
    /// The bytes of the element and what writing it makes of the string
    /// table, or the reason why the element cannot be written: the place of
    /// its name, which is interned; the count of its attributes and the
    /// attributes in the order in which they are kept; the count of its
    /// children and the children.
    pub open spec fn encoding(&self, table: Seq<Seq<char>>) -> Result<
        (Seq<u8>, Seq<Seq<char>>),
        StoreError,
    >
        decreases self, 1nat, 0nat,
    {
        let named = spec_intern(table, self.name@);
        let entries = self.attributes.entries();
        if named.1 is None {
            Err(StoreError::TooManyStrings)
        } else if entries.len() > MAX_ATTRIBUTES {
            Err(StoreError::TooManyAttributes)
        } else {
            match encode_entries(entries, named.0) {
                Err(e) => Err(e),
                Ok((attributes, strings)) => if self.children@.len() > MAX_CHILDREN {
                    Err(StoreError::TooManyChildren)
                } else {
                    match self.children_encoding(self.children@.len(), strings) {
                        Err(e) => Err(e),
                        Ok((children, last)) => Ok(
                            (
                                le_bytes(named.1->Some_0 as nat, 2) + seq![entries.len() as u8]
                                    + attributes + le_bytes(self.children@.len(), 2) + children,
                                last,
                            ),
                        ),
                    }
                },
            }
        }
    }

    /// Whether the plainly written texts among the values of the element
    /// and of all below it have lengths that sixty-four bits can hold.
    pub open spec fn texts_fit(&self) -> bool
        decreases self,
    {
        &&& texts_fit(self.attributes.entries())
        &&& forall|i: int|
            0 <= i < self.children@.len() ==> (#[trigger] self.children@[i]).texts_fit()
    }

    /// The bytes of the first `n` children of the element, one after
    /// another, and what writing them makes of the string table.
    pub open spec fn children_encoding(&self, n: nat, table: Seq<Seq<char>>) -> Result<
        (Seq<u8>, Seq<Seq<char>>),
        StoreError,
    >
        decreases self, 0nat, n,
    {
        if n == 0 || n > self.children@.len() {
            Ok((Seq::empty(), table))
        } else {
            match self.children_encoding((n - 1) as nat, table) {
                Err(e) => Err(e),
                Ok((bytes, strings)) => match self.children@[n - 1].encoding(strings) {
                    Err(e) => Err(e),
                    Ok((child, last)) => Ok((bytes + child, last)),
                },
            }
        }
    }

    /// Reads an element and all that is below it. `lookup` is the string
    /// table of the document. Where no element can be read, the reader
    /// stays where it is.
    pub fn decode(reader: &mut Reader<'_>, lookup: &Vec<String>) -> (r: Result<Element, LoadError>)
        ensures
            match parse_element(old(reader)@, string_views(lookup@)) {
                Ok((e, n)) => r is Ok && r->Ok_0@ == e && n <= old(reader)@.len() && final(reader)@
                    == old(reader)@.skip(n as int),
                Err(e) => r is Err && r->Err_0@ == e && final(reader)@ == old(reader)@,
            },
    {
        let mut cursor = *reader;
        let r = Element::read(&mut cursor, lookup);
        if r.is_ok() {
            *reader = cursor;
        }
        r
    }

    /// Reads an element and all that is below it, and moves the reader also
    /// where none can be read.
    #[verifier::rlimit(30)]
    fn read(reader: &mut Reader<'_>, lookup: &Vec<String>) -> (r: Result<Element, LoadError>)
        ensures
            match parse_element(old(reader)@, string_views(lookup@)) {
                Ok((e, n)) => r is Ok && r->Ok_0@ == e && n <= old(reader)@.len() && final(reader)@
                    == old(reader)@.skip(n as int),
                Err(e) => r is Err && r->Err_0@ == e,
            },
        decreases old(reader)@.len(),
    {
        proof {
            reveal(parse_attribute);
        }
        let ghost s = reader@;
        let ghost table = string_views(lookup@);
        let name = match reader.lookup_string(lookup) {
            Ok(name) => name.to_owned(),
            Err(e) => {
                return Err(e);
            },
        };
        let attr_count = match reader.read_u8() {
            Ok(count) => count,
            Err(e) => {
                return Err(io_error(e));
            },
        };
        let ghost front = reader@;
        assert(front == advance(s, 3));
        let mut attributes = Attributes::new();
        let mut i: u8 = 0;
        let ghost mut taken: nat = 0;
        proof {
            assert(front.skip(0) == front);
        }
        while i < attr_count
            invariant
                i <= attr_count,
                table == string_views(lookup@),
                s == old(reader)@,
                parse_attributes(front, table, attr_count as nat) is Err ==> parse_element(s, table)
                    == Err::<(ElementView, nat), LoadErrorView>(
                    parse_attributes(front, table, attr_count as nat)->Err_0,
                ),
                taken <= front.len(),
                reader@ == front.skip(taken as int),
                parse_attributes(front, table, i as nat) == Ok::<
                    (Map<Seq<char>, ValueView>, nat),
                    LoadErrorView,
                >((attributes@, taken)),
            decreases attr_count - i,
        {
            proof {
                reveal(parse_attribute);
            }
            let ghost here = reader@;
            assert(here == advance(front, taken));
            let key = match reader.lookup_string(lookup) {
                Ok(key) => key.to_owned(),
                Err(e) => {
                    proof {
                        lemma_parse_attributes_error_stays(
                            front,
                            table,
                            (i + 1) as nat,
                            attr_count as nat,
                        );
                    }
                    return Err(e);
                },
            };
            assert(reader@ == advance(here, 2));
            let value = match Value::read(reader, lookup) {
                Ok(value) => value,
                Err(e) => {
                    proof {
                        lemma_parse_attributes_error_stays(
                            front,
                            table,
                            (i + 1) as nat,
                            attr_count as nat,
                        );
                    }
                    return Err(e);
                },
            };
            proof {
                let m = parse_attribute(here, table)->Ok_0.1;
                assert(reader@ =~= front.skip((taken + m) as int));
                taken = taken + m;
            }
            let _ = attributes.insert(key, value);
            i += 1;
        }
        assert(reader@ == advance(s, 3 + taken));
        let child_count = match reader.read_u16() {
            Ok(count) => count,
            Err(e) => {
                return Err(io_error(e));
            },
        };
        let ghost below = reader@;
        assert(below == advance(s, 5 + taken));
        let mut children: Vec<Element> = Vec::new();
        let mut j: u16 = 0;
        let ghost mut used: nat = 0;
        proof {
            assert(below.skip(0) == below);
            assert(element_views(children@) =~= Seq::empty());
        }
        while j < child_count
            invariant
                j <= child_count,
                table == string_views(lookup@),
                parse_children(below, table, child_count as nat) is Err ==> parse_element(s, table)
                    == Err::<(ElementView, nat), LoadErrorView>(
                    parse_children(below, table, child_count as nat)->Err_0,
                ),
                used <= below.len(),
                below.len() < s.len(),
                s == old(reader)@,
                reader@ == below.skip(used as int),
                parse_children(below, table, j as nat) == Ok::<(Seq<ElementView>, nat), LoadErrorView>(
                    (element_views(children@), used),
                ),
            decreases child_count - j,
        {
            let ghost here = reader@;
            assert(here == advance(below, used));
            let child = match Element::read(reader, lookup) {
                Ok(child) => child,
                Err(e) => {
                    proof {
                        lemma_parse_children_error_stays(
                            below,
                            table,
                            (j + 1) as nat,
                            child_count as nat,
                        );
                    }
                    return Err(e);
                },
            };
            proof {
                let m = parse_element(here, table)->Ok_0.1;
                assert(reader@ =~= below.skip((used + m) as int));
                used = used + m;
            }
            let ghost before = element_views(children@);
            children.push(child);
            assert(element_views(children@) == before.push(child@));
            j += 1;
        }
        let r = Element { name, attributes, children };
        proof {
            lemma_children_view(r);
            assert(reader@ =~= s.skip((5 + taken + used) as int));
        }
        Ok(r)
    }

    /// Writes the element and all that is below it behind `out`. The names
    /// of elements and attributes and the short texts among the values are
    /// interned into `table`, which only ever grows. Where the element
    /// cannot be written, `out` is left as it was.
    pub fn encode(&self, out: &mut Vec<u8>, table: &mut StringTable) -> (r: Result<(), StoreError>)
        ensures
            match self.encoding(old(table).strings()) {
                Ok((bytes, strings)) => r is Ok && final(out)@ == old(out)@ + bytes && final(table).strings() == strings && self.texts_fit(),
                Err(e) => r == Err::<(), StoreError>(e) && final(out)@ == old(out)@,
            },
            old(table).strings().is_prefix_of(final(table).strings()),
        decreases self,
    {
        let start = out.len();
        let r = self.write(out, table);
        if r.is_err() {
            out.truncate(start);
            assert(out@ =~= old(out)@);
        }
        r
    }

    /// Writes the element behind `out`; what is written before an error
    /// stays.
    #[verifier::rlimit(30)]
    fn write(&self, out: &mut Vec<u8>, table: &mut StringTable) -> (r: Result<(), StoreError>)
        ensures
            old(out)@.is_prefix_of(final(out)@),
            old(table).strings().is_prefix_of(final(table).strings()),
            match self.encoding(old(table).strings()) {
                Ok((bytes, strings)) => r is Ok && final(out)@ == old(out)@ + bytes && final(table).strings() == strings && self.texts_fit(),
                Err(e) => r == Err::<(), StoreError>(e),
            },
        decreases self, 0nat,
    {
        let ghost first = table.strings();
        let name = match table.intern(self.name.as_str()) {
            Some(index) => index,
            None => {
                return Err(StoreError::TooManyStrings);
            },
        };
        out.extend_from_slice(crate::wire::write_u16(name).as_slice());
        let count = self.attributes.len();
        if count > MAX_ATTRIBUTES {
            return Err(StoreError::TooManyAttributes);
        }
        out.push(count as u8);
        let ghost head = out@;
        let ghost named = table.strings();
        let ghost entries = self.attributes.entries();
        let ghost mut written: Seq<u8> = Seq::empty();
        let mut i: usize = 0;
        proof {
            assert(entries.take(0) =~= Seq::empty());
            assert(head =~= old(out)@ + le_bytes(name as nat, 2) + seq![count as u8]);
            assert(out@ =~= head + written);
        }
        while i < count
            invariant
                i <= count,
                count == entries.len(),
                entries == self.attributes.entries(),
                old(out)@.is_prefix_of(head),
                old(table).strings().is_prefix_of(table.strings()),
                out@ == head + written,
                encode_entries(entries, named) is Err ==> self.encoding(old(table).strings())
                    == Err::<(Seq<u8>, Seq<Seq<char>>), StoreError>(
                    encode_entries(entries, named)->Err_0,
                ),
                encode_entries(entries.take(i as int), named) == Ok::<
                    (Seq<u8>, Seq<Seq<char>>),
                    StoreError,
                >((written, table.strings())),
                texts_fit(entries.take(i as int)),
            decreases count - i,
        {
            proof {
                assert(entries.take(i + 1).drop_last() == entries.take(i as int));
                assert(entries.take(i + 1).last() == entries[i as int]);
                if encode_entries(entries.take(i + 1), named) is Err {
                    lemma_encode_entries_error_stays(entries, named, i + 1);
                }
            }
            let ghost reached = table.strings();
            let key = match table.intern(self.attributes.name_at(i)) {
                Some(index) => index,
                None => {
                    return Err(StoreError::TooManyStrings);
                },
            };
            out.extend_from_slice(crate::wire::write_u16(key).as_slice());
            let ghost keyed = table.strings();
            let done = self.attributes.value_at(i).encode(out, table);
            proof {
                lemma_prefix_chain(reached, keyed, table.strings());
                lemma_prefix_chain(old(table).strings(), reached, table.strings());
            }
            match done {
                Ok(()) => {},
                Err(e) => {
                    assert(head.is_prefix_of(out@));
                    return Err(e);
                },
            }
            proof {
                let value = encode_value(entries[i as int].1, keyed)->Ok_0.0;
                assert(out@ =~= head + (written + le_bytes(key as nat, 2) + value));
                written = written + le_bytes(key as nat, 2) + value;
                assert forall|k: int| 0 <= k < i + 1 implies value_text_len(
                    (#[trigger] entries.take(i + 1)[k]).1,
                ) <= u64::MAX by {
                    if k < i {
                        assert(entries.take(i as int)[k] == entries.take(i + 1)[k]);
                    }
                }
            }
            i += 1;
        }
        assert(entries.take(count as int) == entries);
        let ghost attribute_bytes = written;
        let child_count = self.children.len();
        if child_count > MAX_CHILDREN {
            return Err(StoreError::TooManyChildren);
        }
        out.extend_from_slice(crate::wire::write_u16(child_count as u16).as_slice());
        let ghost body = out@;
        let ghost listed = table.strings();
        let ghost mut below: Seq<u8> = Seq::empty();
        let mut j: usize = 0;
        proof {
            assert(body =~= head + attribute_bytes + le_bytes(child_count as nat, 2));
            assert(out@ =~= body + below);
        }
        while j < child_count
            invariant
                j <= child_count,
                child_count == self.children@.len(),
                old(out)@.is_prefix_of(body),
                old(table).strings().is_prefix_of(table.strings()),
                out@ == body + below,
                self.children_encoding(child_count as nat, listed) is Err ==> self.encoding(
                    old(table).strings(),
                ) == Err::<(Seq<u8>, Seq<Seq<char>>), StoreError>(
                    self.children_encoding(child_count as nat, listed)->Err_0,
                ),
                self.children_encoding(j as nat, listed) == Ok::<
                    (Seq<u8>, Seq<Seq<char>>),
                    StoreError,
                >((below, table.strings())),
                texts_fit(self.attributes.entries()),
                forall|k: int| 0 <= k < j ==> (#[trigger] self.children@[k]).texts_fit(),
            decreases child_count - j,
        {
            let ghost reached = table.strings();
            proof {
                if self.children_encoding((j + 1) as nat, listed) is Err {
                    self.lemma_children_encoding_error_stays(listed, (j + 1) as nat, child_count as nat);
                }
            }
            let done = self.children[j].write(out, table);
            proof {
                lemma_prefix_chain(old(table).strings(), reached, table.strings());
            }
            match done {
                Ok(()) => {},
                Err(e) => {
                    return Err(e);
                },
            }
            proof {
                let child = self.children@[j as int].encoding(reached)->Ok_0.0;
                assert(out@ =~= body + (below + child));
                below = below + child;
            }
            j += 1;
        }
        proof {
            let bytes = self.encoding(first)->Ok_0.0;
            assert(out@ =~= old(out)@ + bytes);
        }
        Ok(())
    }

    /// Once a child cannot be written, asking for more children fails
    /// alike.
    pub proof fn lemma_children_encoding_error_stays(&self, table: Seq<Seq<char>>, n: nat, count: nat)
        requires
            n <= count <= self.children@.len(),
            self.children_encoding(n, table) is Err,
        ensures
            self.children_encoding(count, table) == self.children_encoding(n, table),
        decreases count,
    {
        if n < count {
            self.lemma_children_encoding_error_stays(table, n, (count - 1) as nat);
        }
    }
}

/// Once an attribute cannot be written, the attributes behind it do not
/// change the outcome.
pub proof fn lemma_encode_entries_error_stays(
    entries: Seq<(Seq<char>, ValueView)>,
    table: Seq<Seq<char>>,
    n: int,
)
    requires
        0 <= n <= entries.len(),
        encode_entries(entries.take(n), table) is Err,
    ensures
        encode_entries(entries, table) == encode_entries(entries.take(n), table),
    decreases entries.len() - n,
{
    if n == entries.len() {
        assert(entries.take(n) == entries);
    } else {
        assert(entries.take(n + 1).drop_last() == entries.take(n));
        lemma_encode_entries_error_stays(entries, table, n + 1);
    }
}

} // verus!
