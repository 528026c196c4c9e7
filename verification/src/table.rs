//! The string table of a document: the distinct strings that elements and
//! values refer to by index, in the order of their first use.

use vstd::prelude::*;
use vstd::string::StringSliceAdditionalSpecFns;
use vstd::utf8::encode_utf8;
use indexmap::IndexSet;

verus! {

/// An insertion-ordered set of an outside crate, which holds the table.
#[verifier::external_type_specification]
#[verifier::external_body]
#[verifier::reject_recursive_types(T)]
#[verifier::reject_recursive_types(S)]
pub struct ExIndexSet<T, S>(IndexSet<T, S>);

/// The strings of a set, in the order of their insertion.
pub uninterp spec fn interned(set: IndexSet<String>) -> Seq<Seq<char>>;

/// `IndexSet::new`: a set that holds nothing.
#[verifier::external_body]
fn set_new() -> (set: IndexSet<String>)
    ensures
        interned(set) == Seq::<Seq<char>>::empty(),
{
    IndexSet::new()
}

/// `IndexSet::len`: how many strings the set holds.
#[verifier::external_body]
fn set_len(set: &IndexSet<String>) -> (n: usize)
    ensures
        n == interned(*set).len(),
{
    set.len()
}

/// `IndexSet::get_index_of`: the place of a string in the set, or nothing
/// where the set does not hold it.
#[verifier::external_body]
fn set_index_of(set: &IndexSet<String>, s: &str) -> (r: Option<usize>)
    ensures
        match r {
            Some(i) => i < interned(*set).len() && interned(*set)[i as int] == s@,
            None => !interned(*set).contains(s@),
        },
{
    set.get_index_of(s)
}

/// `IndexSet::get_index`: the string at a place, or nothing where the place
/// is behind the last string.
#[verifier::external_body]
fn set_get_index(set: &IndexSet<String>, i: usize) -> (r: Option<&String>)
    ensures
        r is Some <==> i < interned(*set).len(),
        r is Some ==> r->Some_0@ == interned(*set)[i as int],
{
    set.get_index(i)
}

/// `IndexSet::insert_full`: a string that the set holds stays where it is,
/// and its place and `false` come back; a new string goes behind the others,
/// and its place and `true` come back.
#[verifier::external_body]
fn set_insert_full(set: &mut IndexSet<String>, s: String) -> (r: (usize, bool))
    ensures
        r.1 == !interned(*old(set)).contains(s@),
        r.1 ==> interned(*final(set)) == interned(*old(set)).push(s@) && r.0 == interned(
            *old(set),
        ).len(),
        !r.1 ==> interned(*final(set)) == interned(*old(set)) && r.0 < interned(*old(set)).len()
            && interned(*old(set))[r.0 as int] == s@,
{
    set.insert_full(s)
}

/// The most strings that a table can hold: their count is written in
/// sixteen bits.
pub const TABLE_LIMIT: usize = 65535;

/// The string table that is built while a document is written.
pub struct StringTable {
    set: IndexSet<String>,
}

impl StringTable {
    /// No string occurs twice, the table is within its limit, and the
    /// length of each string fits sixty-four bits.
    #[verifier::type_invariant]
    pub closed spec fn well_formed(&self) -> bool {
        &&& interned(self.set).no_duplicates()
        &&& interned(self.set).len() <= TABLE_LIMIT
        &&& strings_fit(interned(self.set))
    }

    /// The strings of the table, in the order of their first use.
    pub closed spec fn strings(&self) -> Seq<Seq<char>> {
        interned(self.set)
    }

    /// An empty table.
    pub fn new() -> (r: StringTable)
        ensures
            r.strings() == Seq::<Seq<char>>::empty(),
    {
        StringTable { set: set_new() }
    }

    /// How many strings the table holds.
    pub fn len(&self) -> (n: usize)
        ensures
            n == self.strings().len(),
            orderly(self.strings()),
            strings_fit(self.strings()),
    {
        proof {
            use_type_invariant(self);
        }
        set_len(&self.set)
    }

    /// The string at place `i`.
    pub fn get(&self, i: usize) -> (r: Option<&String>)
        ensures
            r is Some <==> i < self.strings().len(),
            r is Some ==> r->Some_0@ == self.strings()[i as int],
    {
        set_get_index(&self.set, i)
    }

    /// The place of `s` in the table. A string that the table does not hold
    /// yet is added behind the others, unless the table is full: then the
    /// table stays as it is and nothing is returned.
    pub fn intern(&mut self, s: &str) -> (r: Option<u16>)
        ensures
            final(self).strings() == spec_intern(old(self).strings(), s@).0,
            r == spec_intern(old(self).strings(), s@).1,
            old(self).strings().is_prefix_of(final(self).strings()),
    {
        proof {
            use_type_invariant(&*self);
            lemma_intern(self.strings(), s@);
        }
        match set_index_of(&self.set, s) {
            Some(i) => {
                proof {
                    lemma_index_of_first(self.strings(), s@, i as int);
                }
                Some(i as u16)
            },
            None => {
                if set_len(&self.set) < TABLE_LIMIT {
                    // a string in memory is no longer than a machine word counts
                    let _length = s.as_bytes().len();
                    let mut set = set_new();
                    std::mem::swap(&mut self.set, &mut set);
                    let (i, _) = set_insert_full(&mut set, s.to_owned());
                    assert(interned(set).no_duplicates());
                    assert(strings_fit(interned(set)));
                    self.set = set;
                    Some(i as u16)
                } else {
                    None
                }
            },
        }
    }
}

/// Whether the length of each string of a table, counted in bytes, fits
/// sixty-four bits.
pub open spec fn strings_fit(table: Seq<Seq<char>>) -> bool {
    forall|i: int| 0 <= i < table.len() ==> encode_utf8(#[trigger] table[i]).len() <= u64::MAX
}

/// What interning `s` makes of a table, and the place it gives for `s`. A
/// string that the table holds keeps its place. A new string goes behind the
/// others if the table has room, and is refused if it has none.
pub open spec fn spec_intern(table: Seq<Seq<char>>, s: Seq<char>) -> (Seq<Seq<char>>, Option<u16>) {
    if table.contains(s) {
        (table, Some(table.index_of(s) as u16))
    } else if table.len() < TABLE_LIMIT {
        (table.push(s), Some(table.len() as u16))
    } else {
        (table, None)
    }
}

/// In a sequence without duplicates, a place that holds `s` is the first.
pub proof fn lemma_index_of_first(table: Seq<Seq<char>>, s: Seq<char>, i: int)
    requires
        table.no_duplicates(),
        0 <= i < table.len(),
        table[i] == s,
    ensures
        table.contains(s),
        table.index_of(s) == i,
{
    assert(table.contains(s));
    let j = table.index_of(s);
    assert(0 <= j < table.len() && table[j] == s);
}

/// A table as it is while a document is written: no string twice, and no
/// more strings than the limit.
pub open spec fn orderly(table: Seq<Seq<char>>) -> bool {
    table.no_duplicates() && table.len() <= TABLE_LIMIT
}

/// Interning keeps a table orderly and only ever adds behind its strings;
/// the place that it gives holds the string.
pub proof fn lemma_intern(table: Seq<Seq<char>>, s: Seq<char>)
    requires
        orderly(table),
    ensures
        orderly(spec_intern(table, s).0),
        table.is_prefix_of(spec_intern(table, s).0),
        spec_intern(table, s).1 matches Some(i) ==> i < spec_intern(table, s).0.len() && spec_intern(
            table,
            s,
        ).0[i as int] == s,
        spec_intern(table, s).1 is None ==> spec_intern(table, s).0 == table && table.len()
            == TABLE_LIMIT && !table.contains(s),
{
    if table.contains(s) {
        let i = table.index_of(s);
        assert(0 <= i < table.len() && table[i] == s);
    } else if table.len() < TABLE_LIMIT {
        let next = table.push(s);
        assert forall|i: int, j: int| 0 <= i < next.len() && 0 <= j < next.len() && i != j implies next[i]
            != next[j] by {
            if i == table.len() {
                assert(table[j] == next[j]);
                assert(table.contains(next[j]));
            } else if j == table.len() {
                assert(table[i] == next[i]);
                assert(table.contains(next[i]));
            }
        }
    }
}

/// A string that was interned keeps its one place when it is interned again.
pub proof fn lemma_intern_twice(table: Seq<Seq<char>>, s: Seq<char>)
    requires
        orderly(table),
        spec_intern(table, s).1 is Some,
    ensures
        spec_intern(spec_intern(table, s).0, s) == spec_intern(table, s),
{
    lemma_intern(table, s);
    let once = spec_intern(table, s);
    let i = once.1->Some_0 as int;
    lemma_index_of_first(once.0, s, i);
}

/// What stands in front of something that stands in front of a third stands
/// in front of the third.
pub proof fn lemma_prefix_chain<T>(a: Seq<T>, b: Seq<T>, c: Seq<T>)
    requires
        a.is_prefix_of(b),
        b.is_prefix_of(c),
    ensures
        a.is_prefix_of(c),
{
    assert(a =~= c.subrange(0, a.len() as int)) by {
        assert(a == b.subrange(0, a.len() as int));
        assert(b == c.subrange(0, b.len() as int));
    }
}

} // verus!
