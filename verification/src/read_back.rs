//! What is written is read back: the bytes of a value, of an element and of
//! a document are read as what they were written for.
//!
//! The string table grows while a document is written, and a string keeps
//! its place in it. So what was written with a table is read back with any
//! table that only has more strings behind those.

use vstd::prelude::*;
use vstd::arithmetic::power::pow;
use vstd::arithmetic::power2::{lemma2_to64, pow2};
use vstd::utf8::encode_utf8;
use crate::element::{
    advance, encode_entries, encode_value, entries_map, integer_bytes, parse_attribute,
    parse_attributes, parse_children, parse_element, parse_value, text_bytes, texts_fit,
    value_text_len, Element, ElementView, ValueView, LONG_STRING, MAX_ATTRIBUTES, MAX_CHILDREN,
};
use crate::error::{LoadErrorView, StreamError};
use crate::ext::{
    lemma_rle_string_round_trip, lemma_string_round_trip, parse_lookup, parse_string,
    rle_string_bytes, string_bytes,
};
use crate::table::{
    lemma_intern, lemma_prefix_chain, orderly, spec_intern, strings_fit, TABLE_LIMIT,
};
use crate::{
    body_bytes, document_bytes, header_bytes, parse_body, parse_document, parse_table, table_bytes,
};
use crate::wire::{as_signed, as_unsigned, le_bytes, le_value, lemma_le_bytes};

verus! {

/// Two bytes that were written for a number are read as that number,
/// whatever follows them.
pub proof fn lemma_two_bytes(n: nat, rest: Seq<u8>)
    requires
        n < 0x1_0000,
    ensures
        le_bytes(n, 2).len() == 2,
        (le_bytes(n, 2) + rest).take(2) == le_bytes(n, 2),
        le_value(le_bytes(n, 2)) == n,
{
    lemma_le_bytes(n, 2);
    assert(pow(256, 2) == 0x1_0000) by {
        reveal_with_fuel(pow, 3);
    }
    assert((le_bytes(n, 2) + rest).take(2) =~= le_bytes(n, 2));
}

/// Four bytes that were written for a number are read as that number,
/// whatever follows them.
pub proof fn lemma_four_bytes(n: nat, rest: Seq<u8>)
    requires
        n < 0x1_0000_0000,
    ensures
        le_bytes(n, 4).len() == 4,
        (le_bytes(n, 4) + rest).take(4) == le_bytes(n, 4),
        le_value(le_bytes(n, 4)) == n,
{
    lemma_le_bytes(n, 4);
    assert(pow(256, 4) == 0x1_0000_0000) by {
        reveal_with_fuel(pow, 5);
    }
    assert((le_bytes(n, 4) + rest).take(4) =~= le_bytes(n, 4));
}

/// A signed number comes back from the unsigned number that stands for it.
pub proof fn lemma_signed(i: int, bits: nat)
    requires
        bits == 16 || bits == 32,
        -pow2((bits - 1) as nat) <= i < pow2((bits - 1) as nat),
    ensures
        as_unsigned(i, bits) < pow2(bits),
        as_signed(as_unsigned(i, bits), bits) == i,
{
    lemma2_to64();
}

/// The bytes of an integer value are read as that integer.
pub proof fn lemma_integer_read_back(i: i32, rest: Seq<u8>, lookup: Seq<Seq<char>>)
    ensures
        parse_value(integer_bytes(i) + rest, lookup) == Ok::<(ValueView, nat), LoadErrorView>(
            (ValueView::Integer(i), integer_bytes(i).len()),
        ),
{
    reveal(parse_value);
    lemma2_to64();
    let s = integer_bytes(i) + rest;
    if 0 <= i <= 255 {
        assert(s[0] == 1 && s[1] == i as u8);
        assert(advance(s, 1)[0] == s[1]);
    } else if -32768 <= i <= 32767 {
        let n = as_unsigned(i as int, 16);
        lemma_signed(i as int, 16);
        lemma_two_bytes(n, rest);
        assert(s[0] == 2);
        assert(advance(s, 1) =~= le_bytes(n, 2) + rest);
    } else {
        let n = as_unsigned(i as int, 32);
        lemma_signed(i as int, 32);
        lemma_four_bytes(n, rest);
        assert(s[0] == 3);
        assert(advance(s, 1) =~= le_bytes(n, 4) + rest);
    }
}

/// The bytes of a text value are read as that text with any table that has
/// grown out of the one that writing the text made.
pub proof fn lemma_text_read_back(
    text: Seq<char>,
    table: Seq<Seq<char>>,
    rest: Seq<u8>,
    lookup: Seq<Seq<char>>,
)
    requires
        orderly(table),
        text_bytes(text, table).1.is_prefix_of(lookup),
        encode_utf8(text).len() <= u64::MAX,
    ensures
        parse_value(text_bytes(text, table).0 + rest, lookup) == Ok::<
            (ValueView, nat),
            LoadErrorView,
        >((ValueView::String(text), text_bytes(text, table).0.len())),
        orderly(text_bytes(text, table).1),
        table.is_prefix_of(text_bytes(text, table).1),
{
    reveal(parse_value);
    let written = text_bytes(text, table);
    let s = written.0 + rest;
    let interned = spec_intern(table, text);
    lemma_intern(table, text);
    if encode_utf8(text).len() < LONG_STRING && interned.1 is Some {
        let i = interned.1->Some_0 as nat;
        lemma_two_bytes(i, rest);
        assert(s[0] == 5);
        assert(advance(s, 1) =~= le_bytes(i, 2) + rest);
        assert(lookup[i as int] == interned.0[i as int]);
    } else {
        lemma_string_round_trip(text, rest);
        assert(s[0] == 6);
        assert(advance(s, 1) =~= string_bytes(text) + rest);
    }
}

/// The bytes of a value are read as that value with any table that has
/// grown out of the one that writing the value made.
pub proof fn lemma_value_read_back(
    v: ValueView,
    table: Seq<Seq<char>>,
    rest: Seq<u8>,
    lookup: Seq<Seq<char>>,
)
    requires
        orderly(table),
        encode_value(v, table) is Ok,
        encode_value(v, table)->Ok_0.1.is_prefix_of(lookup),
        value_text_len(v) <= u64::MAX,
    ensures
        parse_value(encode_value(v, table)->Ok_0.0 + rest, lookup) == Ok::<
            (ValueView, nat),
            LoadErrorView,
        >((v, encode_value(v, table)->Ok_0.0.len())),
        orderly(encode_value(v, table)->Ok_0.1),
        table.is_prefix_of(encode_value(v, table)->Ok_0.1),
{
    reveal(parse_value);
    let bytes = encode_value(v, table)->Ok_0.0;
    let s = bytes + rest;
    match v {
        ValueView::Boolean(b) => {
            assert(s[0] == 0);
            assert(advance(s, 1)[0] == s[1]);
        },
        ValueView::Integer(i) => {
            lemma_integer_read_back(i, rest, lookup);
        },
        ValueView::Float(x) => {
            lemma_four_bytes(x.bits as nat, rest);
            assert(s[0] == 4);
            assert(advance(s, 1) =~= le_bytes(x.bits as nat, 4) + rest);
        },
        ValueView::String(text) => {
            lemma_text_read_back(text, table, rest, lookup);
        },
        ValueView::RleString(text) => {
            lemma_rle_string_round_trip(text, rest);
            assert(s[0] == 7);
            assert(advance(s, 1) =~= rle_string_bytes(text) + rest);
        },
    }
}

/// How an attribute is read from the bytes of its parts: the two bytes of
/// the place of its name, and the bytes of its value.
pub proof fn lemma_attribute_framed(
    key: nat,
    value_bytes: Seq<u8>,
    rest: Seq<u8>,
    lookup: Seq<Seq<char>>,
    value: ValueView,
)
    requires
        key < lookup.len(),
        key < 0x1_0000,
        parse_value(value_bytes + rest, lookup) == Ok::<(ValueView, nat), LoadErrorView>(
            (value, value_bytes.len()),
        ),
    ensures
        parse_attribute(le_bytes(key, 2) + (value_bytes + rest), lookup) == Ok::<
            ((Seq<char>, ValueView), nat),
            LoadErrorView,
        >(((lookup[key as int], value), 2 + value_bytes.len())),
{
    reveal(parse_attribute);
    lemma_two_bytes(key, value_bytes + rest);
    lemma_advance(le_bytes(key, 2), value_bytes + rest);
}

/// One more attribute behind attributes that were read.
pub proof fn lemma_attributes_step(
    s: Seq<u8>,
    lookup: Seq<Seq<char>>,
    count: nat,
    front: Map<Seq<char>, ValueView>,
    n: nat,
    key: Seq<char>,
    value: ValueView,
    m: nat,
)
    requires
        count >= 1,
        parse_attributes(s, lookup, (count - 1) as nat) == Ok::<
            (Map<Seq<char>, ValueView>, nat),
            LoadErrorView,
        >((front, n)),
        parse_attribute(advance(s, n), lookup) == Ok::<((Seq<char>, ValueView), nat), LoadErrorView>(
            ((key, value), m),
        ),
    ensures
        parse_attributes(s, lookup, count) == Ok::<(Map<Seq<char>, ValueView>, nat), LoadErrorView>(
            (front.insert(key, value), n + m),
        ),
{
}

/// The bytes of a list of attributes are read as the map of those
/// attributes with any table that has grown out of the one that writing
/// them made.
#[verifier::rlimit(30)]
pub proof fn lemma_entries_read_back(
    entries: Seq<(Seq<char>, ValueView)>,
    table: Seq<Seq<char>>,
    rest: Seq<u8>,
    lookup: Seq<Seq<char>>,
)
    requires
        orderly(table),
        encode_entries(entries, table) is Ok,
        encode_entries(entries, table)->Ok_0.1.is_prefix_of(lookup),
        texts_fit(entries),
    ensures
        parse_attributes(encode_entries(entries, table)->Ok_0.0 + rest, lookup, entries.len())
            == Ok::<(Map<Seq<char>, ValueView>, nat), LoadErrorView>(
            (entries_map(entries), encode_entries(entries, table)->Ok_0.0.len()),
        ),
    decreases entries.len(),
{
    let bytes = encode_entries(entries, table)->Ok_0.0;
    let last_table = encode_entries(entries, table)->Ok_0.1;
    if entries.len() > 0 {
        let front = entries.drop_last();
        let key = entries.last().0;
        let value = entries.last().1;
        let b0 = encode_entries(front, table)->Ok_0.0;
        let t0 = encode_entries(front, table)->Ok_0.1;
        let named = spec_intern(t0, key);
        let i = named.1->Some_0 as nat;
        let vb = encode_value(value, named.0)->Ok_0.0;
        assert(texts_fit(front)) by {
            assert forall|k: int| 0 <= k < front.len() implies value_text_len((#[trigger] front[k]).1)
                <= u64::MAX by {
                assert(front[k] == entries[k]);
            }
        }
        assert(value_text_len(entries[entries.len() - 1].1) <= u64::MAX);
        // the tables grow step by step, and the last one stands in front of `lookup`
        lemma_entries_grow(front, table);
        lemma_intern(t0, key);
        lemma_value_grows(value, named.0);
        lemma_prefix_chain(named.0, last_table, lookup);
        lemma_prefix_chain(t0, named.0, lookup);
        assert(lookup[i as int] == named.0[i as int]);
        let behind = le_bytes(i, 2) + (vb + rest);
        lemma_entries_read_back(front, table, behind, lookup);
        lemma_value_read_back(value, named.0, rest, lookup);
        lemma_attribute_framed(i, vb, rest, lookup, value);
        let s = bytes + rest;
        lemma_le_bytes(i, 2);
        assert(bytes == b0 + le_bytes(i, 2) + vb);
        assert(bytes.len() == b0.len() + 2 + vb.len());
        assert(s =~= b0 + behind);
        lemma_advance(b0, behind);
        lemma_attributes_step(
            s,
            lookup,
            entries.len(),
            entries_map(front),
            b0.len(),
            key,
            value,
            2 + vb.len(),
        );
    }
}

/// Writing a value keeps a table orderly and only ever adds behind its
/// strings.
pub proof fn lemma_value_grows(v: ValueView, table: Seq<Seq<char>>)
    requires
        orderly(table),
        encode_value(v, table) is Ok,
    ensures
        orderly(encode_value(v, table)->Ok_0.1),
        table.is_prefix_of(encode_value(v, table)->Ok_0.1),
{
    match v {
        ValueView::String(text) => {
            lemma_intern(table, text);
        },
        _ => {},
    }
}

/// Writing a list of attributes keeps a table orderly and only ever adds
/// behind its strings.
pub proof fn lemma_entries_grow(entries: Seq<(Seq<char>, ValueView)>, table: Seq<Seq<char>>)
    requires
        orderly(table),
        encode_entries(entries, table) is Ok,
    ensures
        orderly(encode_entries(entries, table)->Ok_0.1),
        table.is_prefix_of(encode_entries(entries, table)->Ok_0.1),
    decreases entries.len(),
{
    if entries.len() > 0 {
        let front = entries.drop_last();
        let t0 = encode_entries(front, table)->Ok_0.1;
        let named = spec_intern(t0, entries.last().0);
        lemma_entries_grow(front, table);
        lemma_intern(t0, entries.last().0);
        lemma_value_grows(entries.last().1, named.0);
        lemma_prefix_chain(t0, named.0, encode_entries(entries, table)->Ok_0.1);
        lemma_prefix_chain(table, t0, encode_entries(entries, table)->Ok_0.1);
    }
}

/// How an element is read: its name, the count of its attributes and the
/// attributes, the count of its children and the children.
pub proof fn lemma_framed(
    s: Seq<u8>,
    lookup: Seq<Seq<char>>,
    name: nat,
    attributes: Map<Seq<char>, ValueView>,
    n: nat,
    children: Seq<ElementView>,
    m: nat,
)
    requires
        s.len() >= 3,
        parse_lookup(s, lookup.len()) == Ok::<nat, LoadErrorView>(name),
        parse_attributes(advance(s, 3), lookup, s[2] as nat) == Ok::<
            (Map<Seq<char>, ValueView>, nat),
            LoadErrorView,
        >((attributes, n)),
        advance(s, 3 + n).len() >= 2,
        parse_children(advance(s, 5 + n), lookup, le_value(advance(s, 3 + n).take(2))) == Ok::<
            (Seq<ElementView>, nat),
            LoadErrorView,
        >((children, m)),
    ensures
        parse_element(s, lookup) == Ok::<(ElementView, nat), LoadErrorView>(
            (ElementView { name: lookup[name as int], attributes, children }, 5 + n + m),
        ),
{
}

/// How an element is read from the bytes of its parts: the two bytes of
/// the place of its name, the count of its attributes, the bytes of the
/// attributes, the two bytes of the count of its children, and the bytes of
/// the children.
#[verifier::rlimit(30)]
pub proof fn lemma_read_framed(
    name: nat,
    count: nat,
    attribute_bytes: Seq<u8>,
    child_count: nat,
    child_bytes: Seq<u8>,
    rest: Seq<u8>,
    lookup: Seq<Seq<char>>,
    attributes: Map<Seq<char>, ValueView>,
    children: Seq<ElementView>,
)
    requires
        name < lookup.len(),
        name < 0x1_0000,
        count <= MAX_ATTRIBUTES,
        child_count <= MAX_CHILDREN,
        parse_attributes(
            attribute_bytes + (le_bytes(child_count, 2) + (child_bytes + rest)),
            lookup,
            count,
        ) == Ok::<(Map<Seq<char>, ValueView>, nat), LoadErrorView>(
            (attributes, attribute_bytes.len()),
        ),
        parse_children(child_bytes + rest, lookup, child_count) == Ok::<
            (Seq<ElementView>, nat),
            LoadErrorView,
        >((children, child_bytes.len())),
    ensures
        parse_element(
            le_bytes(name, 2) + seq![count as u8] + attribute_bytes + le_bytes(child_count, 2)
                + child_bytes + rest,
            lookup,
        ) == Ok::<(ElementView, nat), LoadErrorView>(
            (
                ElementView { name: lookup[name as int], attributes, children },
                (le_bytes(name, 2) + seq![count as u8] + attribute_bytes + le_bytes(child_count, 2)
                    + child_bytes).len(),
            ),
        ),
{
    let after_attributes = le_bytes(child_count, 2) + (child_bytes + rest);
    let head = le_bytes(name, 2) + seq![count as u8];
    let s = le_bytes(name, 2) + seq![count as u8] + attribute_bytes + le_bytes(child_count, 2)
        + child_bytes + rest;
    lemma_two_bytes(name, seq![count as u8] + (attribute_bytes + after_attributes));
    lemma_two_bytes(child_count, child_bytes + rest);
    assert(s =~= head + (attribute_bytes + after_attributes));
    assert(s =~= le_bytes(name, 2) + (seq![count as u8] + (attribute_bytes + after_attributes)));
    assert(s =~= (head + attribute_bytes) + after_attributes);
    assert(s =~= ((head + attribute_bytes) + le_bytes(child_count, 2)) + (child_bytes + rest));
    lemma_advance(head, attribute_bytes + after_attributes);
    lemma_advance(head + attribute_bytes, after_attributes);
    lemma_advance((head + attribute_bytes) + le_bytes(child_count, 2), child_bytes + rest);
    lemma_advance(le_bytes(child_count, 2), child_bytes + rest);
    assert(s[2] == count as u8);
    lemma_framed(s, lookup, name, attributes, attribute_bytes.len(), children, child_bytes.len());
}

/// What stands behind the front of two joined sequences is the second, and
/// what stands in front is the first.
pub proof fn lemma_advance(a: Seq<u8>, b: Seq<u8>)
    ensures
        advance(a + b, a.len()) == b,
        (a + b).take(a.len() as int) == a,
        (a + b).len() == a.len() + b.len(),
{
    assert(advance(a + b, a.len()) =~= b);
    assert((a + b).take(a.len() as int) =~= a);
}

impl Element {
    /// Writing an element keeps a table orderly and only ever adds behind
    /// its strings.
    pub proof fn lemma_grows(&self, table: Seq<Seq<char>>)
        requires
            orderly(table),
            self.encoding(table) is Ok,
        ensures
            orderly(self.encoding(table)->Ok_0.1),
            table.is_prefix_of(self.encoding(table)->Ok_0.1),
        decreases self, 1nat, 0nat,
    {
        let named = spec_intern(table, self.name@);
        lemma_intern(table, self.name@);
        let listed = encode_entries(self.attributes.entries(), named.0)->Ok_0.1;
        lemma_entries_grow(self.attributes.entries(), named.0);
        self.lemma_children_grow(self.children@.len(), listed);
        let last = self.encoding(table)->Ok_0.1;
        lemma_prefix_chain(named.0, listed, last);
        lemma_prefix_chain(table, named.0, last);
    }

    /// Writing the first children of an element keeps a table orderly and
    /// only ever adds behind its strings.
    pub proof fn lemma_children_grow(&self, n: nat, table: Seq<Seq<char>>)
        requires
            orderly(table),
            n <= self.children@.len(),
            self.children_encoding(n, table) is Ok,
        ensures
            orderly(self.children_encoding(n, table)->Ok_0.1),
            table.is_prefix_of(self.children_encoding(n, table)->Ok_0.1),
        decreases self, 0nat, n,
    {
        if n > 0 {
            let before = self.children_encoding((n - 1) as nat, table)->Ok_0.1;
            self.lemma_children_grow((n - 1) as nat, table);
            self.children@[n - 1].lemma_grows(before);
            lemma_prefix_chain(table, before, self.children_encoding(n, table)->Ok_0.1);
        }
    }

    /// The bytes of an element are read as that element with any table
    /// that has grown out of the one that writing it made.
    #[verifier::rlimit(30)]
    pub proof fn lemma_read_back(&self, table: Seq<Seq<char>>, rest: Seq<u8>, lookup: Seq<Seq<char>>)
        requires
            orderly(table),
            self.encoding(table) is Ok,
            self.encoding(table)->Ok_0.1.is_prefix_of(lookup),
            self.texts_fit(),
        ensures
            parse_element(self.encoding(table)->Ok_0.0 + rest, lookup) == Ok::<
                (ElementView, nat),
                LoadErrorView,
            >((self@, self.encoding(table)->Ok_0.0.len())),
        decreases self, 1nat, 0nat,
    {
        let bytes = self.encoding(table)->Ok_0.0;
        let last = self.encoding(table)->Ok_0.1;
        let entries = self.attributes.entries();
        let count = self.children@.len();
        let named = spec_intern(table, self.name@);
        let name = named.1->Some_0 as nat;
        let attributes = encode_entries(entries, named.0)->Ok_0.0;
        let listed = encode_entries(entries, named.0)->Ok_0.1;
        let children = self.children_encoding(count, listed)->Ok_0.0;
        lemma_intern(table, self.name@);
        lemma_entries_grow(entries, named.0);
        self.lemma_children_grow(count, listed);
        lemma_prefix_chain(listed, last, lookup);
        lemma_prefix_chain(named.0, listed, lookup);
        assert(lookup[name as int] == named.0[name as int]);
        let after_attributes = le_bytes(count, 2) + (children + rest);
        lemma_entries_read_back(entries, named.0, after_attributes, lookup);
        self.lemma_children_read_back(count, listed, rest, lookup);
        crate::element::lemma_children_view(*self);
        assert(crate::element::element_views(self.children@).take(count as int)
            == crate::element::element_views(self.children@));
        lemma_read_framed(
            name,
            entries.len(),
            attributes,
            count,
            children,
            rest,
            lookup,
            self.attributes@,
            crate::element::element_views(self.children@),
        );
    }

    /// The bytes of the first children of an element are read as those
    /// children with any table that has grown out of the one that writing
    /// them made.
    pub proof fn lemma_children_read_back(
        &self,
        n: nat,
        table: Seq<Seq<char>>,
        rest: Seq<u8>,
        lookup: Seq<Seq<char>>,
    )
        requires
            orderly(table),
            n <= self.children@.len(),
            self.children_encoding(n, table) is Ok,
            self.children_encoding(n, table)->Ok_0.1.is_prefix_of(lookup),
            self.texts_fit(),
        ensures
            parse_children(self.children_encoding(n, table)->Ok_0.0 + rest, lookup, n) == Ok::<
                (Seq<ElementView>, nat),
                LoadErrorView,
            >(
                (
                    crate::element::element_views(self.children@).take(n as int),
                    self.children_encoding(n, table)->Ok_0.0.len(),
                ),
            ),
        decreases self, 0nat, n,
    {
        let bytes = self.children_encoding(n, table)->Ok_0.0;
        let last = self.children_encoding(n, table)->Ok_0.1;
        let views = crate::element::element_views(self.children@);
        if n == 0 {
            assert(views.take(0) =~= Seq::empty());
        } else {
            let child = self.children@[n - 1];
            let b0 = self.children_encoding((n - 1) as nat, table)->Ok_0.0;
            let t0 = self.children_encoding((n - 1) as nat, table)->Ok_0.1;
            let cb = child.encoding(t0)->Ok_0.0;
            self.lemma_children_grow((n - 1) as nat, table);
            child.lemma_grows(t0);
            lemma_prefix_chain(t0, last, lookup);
            self.lemma_children_read_back((n - 1) as nat, table, cb + rest, lookup);
            let s = bytes + rest;
            assert(s =~= b0 + (cb + rest));
            assert(advance(s, b0.len()) =~= cb + rest);
            child.lemma_read_back(t0, rest, lookup);
            assert(views.take(n as int) =~= views.take(n - 1).push(child@));
        }
    }
}

/// The bytes of a string table are read as that table, whatever follows
/// them.
pub proof fn lemma_table_read_back(table: Seq<Seq<char>>, rest: Seq<u8>)
    requires
        strings_fit(table),
    ensures
        parse_table(table_bytes(table) + rest, table.len()) == Ok::<
            (Seq<Seq<char>>, nat),
            StreamError,
        >((table, table_bytes(table).len())),
    decreases table.len(),
{
    if table.len() > 0 {
        let front = table.drop_last();
        let text = table.last();
        let b0 = table_bytes(front);
        assert(strings_fit(front)) by {
            assert forall|i: int| 0 <= i < front.len() implies encode_utf8(#[trigger] front[i]).len()
                <= u64::MAX by {
                assert(front[i] == table[i]);
            }
        }
        assert(encode_utf8(table[table.len() - 1]).len() <= u64::MAX);
        lemma_table_read_back(front, string_bytes(text) + rest);
        lemma_string_round_trip(text, rest);
        let s = table_bytes(table) + rest;
        assert(s =~= b0 + (string_bytes(text) + rest));
        lemma_advance(b0, string_bytes(text) + rest);
        assert(front.push(text) =~= table);
        assert(table_bytes(table).len() == b0.len() + string_bytes(text).len());
    } else {
        assert(table =~= Seq::empty());
    }
}

/// The bytes of the body of a document are read as the name of the package
/// and the root that they were written for, whatever follows them.
#[verifier::rlimit(30)]
pub proof fn lemma_body_read_back(package: Seq<char>, root: Element, rest: Seq<u8>)
    requires
        root.encoding(Seq::empty()) is Ok,
        root.texts_fit(),
        strings_fit(root.encoding(Seq::empty())->Ok_0.1),
        encode_utf8(package).len() <= u64::MAX,
    ensures
        parse_body(
            body_bytes(
                package,
                root.encoding(Seq::empty())->Ok_0.1,
                root.encoding(Seq::empty())->Ok_0.0,
            ) + rest,
        ) == Ok::<(Seq<char>, ElementView), LoadErrorView>((package, root@)),
{
    let body = root.encoding(Seq::empty())->Ok_0.0;
    let table = root.encoding(Seq::empty())->Ok_0.1;
    assert(orderly(Seq::<Seq<char>>::empty()));
    root.lemma_grows(Seq::empty());
    assert(table.is_prefix_of(table));
    root.lemma_read_back(Seq::empty(), rest, table);
    lemma_table_read_back(table, body + rest);
    lemma_body_framed(package, table, body, rest, root@);
}

/// How the body of a document is read from the bytes of its parts: the
/// name of the package, the two bytes of the count of strings, the bytes of
/// the table, and the bytes of the root.
#[verifier::rlimit(30)]
pub proof fn lemma_body_framed(
    package: Seq<char>,
    table: Seq<Seq<char>>,
    body: Seq<u8>,
    rest: Seq<u8>,
    root: ElementView,
)
    requires
        encode_utf8(package).len() <= u64::MAX,
        table.len() <= TABLE_LIMIT,
        parse_table(table_bytes(table) + (body + rest), table.len()) == Ok::<
            (Seq<Seq<char>>, nat),
            StreamError,
        >((table, table_bytes(table).len())),
        parse_element(body + rest, table) == Ok::<(ElementView, nat), LoadErrorView>(
            (root, body.len()),
        ),
    ensures
        parse_body(body_bytes(package, table, body) + rest) == Ok::<
            (Seq<char>, ElementView),
            LoadErrorView,
        >((package, root)),
{
    reveal(parse_body);
    let count = le_bytes(table.len(), 2);
    let after_count = table_bytes(table) + (body + rest);
    let after_package = count + after_count;
    let s = body_bytes(package, table, body) + rest;
    assert(s =~= string_bytes(package) + after_package);
    lemma_string_round_trip(package, after_package);
    lemma_advance(string_bytes(package), after_package);
    lemma_two_bytes(table.len(), after_count);
    lemma_advance(count, after_count);
    lemma_advance(table_bytes(table), body + rest);
    assert(advance(after_package, 2 + table_bytes(table).len()) =~= body + rest);
}

/// The header of a document is read as one, and what follows it is left.
pub proof fn lemma_header_read_back(behind: Seq<u8>)
    ensures
        parse_string(string_bytes("CELESTE MAP"@) + behind) is Ok,
        parse_string(string_bytes("CELESTE MAP"@) + behind)->Ok_0.0 == "CELESTE MAP"@,
        advance(
            string_bytes("CELESTE MAP"@) + behind,
            parse_string(string_bytes("CELESTE MAP"@) + behind)->Ok_0.1,
        ) == behind,
{
    let header = "CELESTE MAP"@;
    reveal_strlit("CELESTE MAP");
    vstd::utf8::is_ascii_chars_encode_utf8(header);
    lemma_string_round_trip(header, behind);
    lemma_advance(string_bytes(header), behind);
}

/// The bytes of a document are read as the name of the package and the
/// root that they were written for, whatever follows them.
#[verifier::rlimit(30)]
pub proof fn lemma_document_read_back(
    package: Seq<char>,
    root: Element,
    write_header: bool,
    rest: Seq<u8>,
)
    requires
        document_bytes(package, root, write_header) is Ok,
        root.texts_fit(),
        strings_fit(root.encoding(Seq::empty())->Ok_0.1),
        encode_utf8(package).len() <= u64::MAX,
    ensures
        parse_document(document_bytes(package, root, write_header)->Ok_0 + rest, write_header)
            == Ok::<(Seq<char>, ElementView), LoadErrorView>((package, root@)),
{
    let body = root.encoding(Seq::empty())->Ok_0.0;
    let table = root.encoding(Seq::empty())->Ok_0.1;
    let behind = body_bytes(package, table, body) + rest;
    lemma_body_read_back(package, root, rest);
    lemma_framed_document(body_bytes(package, table, body), rest, write_header, package, root@);
}

/// How a document is read from its header and its body.
#[verifier::rlimit(30)]
pub proof fn lemma_framed_document(
    body: Seq<u8>,
    rest: Seq<u8>,
    write_header: bool,
    package: Seq<char>,
    root: ElementView,
)
    requires
        parse_body(body + rest) == Ok::<(Seq<char>, ElementView), LoadErrorView>((package, root)),
    ensures
        parse_document(header_bytes(write_header) + body + rest, write_header) == Ok::<
            (Seq<char>, ElementView),
            LoadErrorView,
        >((package, root)),
{
    let behind = body + rest;
    let s = header_bytes(write_header) + body + rest;
    if write_header {
        lemma_header_read_back(behind);
        assert(s =~= string_bytes("CELESTE MAP"@) + behind);
    } else {
        assert(s =~= behind);
    }
}

} // verus!
