//! Reading and writing of a binary, tree-structured level format, with a
//! typed view of the tree: maps, levels, entities, decals and tile grids.
//!
//! The crate works on bytes held in memory. A document is decoded from a
//! byte slice and encoded into a byte vector; moving those bytes to and from
//! a file or a socket is the caller's business.
//!
//! Single-precision numbers are kept as their bit patterns, see [`Float32`].
//!
//! A document is an optional header, the name of the map's package, a table
//! of strings, and a tree of elements that refer to the table. The tree is
//! read into [`Element`]s and from there into a [`MapData`] with its
//! [`Level`]s, [`Entity`]s, [`Decal`]s and [`Tilemap`]s; writing goes the
//! other way.

use vstd::prelude::*;

pub mod element;
pub mod error;
pub mod ext;
pub mod float;
pub mod map_data;
pub mod map_serde;
pub mod read_back;
pub mod round_trip;
mod sealed;
pub mod table;
pub mod text;
pub mod tilemap;
pub mod wire;

pub use element::{Attributes, Element, Value};
pub use error::{LoadError, StoreError, StreamError};
pub use float::Float32;
pub use map_data::{Decal, Entity, Filler, Level, LevelData, MapData};
pub use map_serde::MapElement;
pub use tilemap::{Tilemap, TilemapCell};

use element::{advance, parse_element, ElementView, ValueView};
use error::LoadErrorView;
use ext::{parse_string, string_bytes, ReadExt, Reader, WriteExt};
use map_data::MapDataView;
use map_serde::{element_of_map, map_of};
use table::StringTable;
use text::{str_eq, string_views};
use wire::{le_bytes, le_value};

verus! {

/// Reads `count` length-prefixed strings from the front of `s`, one after
/// another.
pub open spec fn parse_table(s: Seq<u8>, count: nat) -> Result<
    (Seq<Seq<char>>, nat),
    error::StreamError,
>
    decreases count,
{
    if count == 0 {
        Ok((Seq::empty(), 0))
    } else {
        match parse_table(s, (count - 1) as nat) {
            Err(e) => Err(e),
            Ok((strings, n)) => match parse_string(advance(s, n)) {
                Err(e) => Err(e),
                Ok((text, m)) => Ok((strings.push(text), n + m)),
            },
        }
    }
}

/// Once a string has failed, asking for more strings fails alike.
pub proof fn lemma_parse_table_error_stays(s: Seq<u8>, n: nat, count: nat)
    requires
        n <= count,
        parse_table(s, n) is Err,
    ensures
        parse_table(s, count) == parse_table(s, n),
    decreases count,
{
    if n < count {
        lemma_parse_table_error_stays(s, n, (count - 1) as nat);
    }
}

/// Reads the body of a document from the front of `s`: the name of the
/// package, the count of strings in the table, the table, and the root
/// element. The result is the name and the root. Bytes behind the root are
/// not looked at.
#[verifier::opaque]
pub open spec fn parse_body(s: Seq<u8>) -> Result<(Seq<char>, ElementView), LoadErrorView> {
    match parse_string(s) {
        Err(e) => Err(LoadErrorView::IoError(e)),
        Ok((package, n)) => {
            let rest = advance(s, n);
            if rest.len() < 2 {
                Err(LoadErrorView::IoError(error::StreamError::UnexpectedEof))
            } else {
                match parse_table(advance(rest, 2), le_value(rest.take(2))) {
                    Err(e) => Err(LoadErrorView::IoError(e)),
                    Ok((table, m)) => match parse_element(advance(rest, 2 + m), table) {
                        Err(e) => Err(e),
                        Ok((root, _)) => Ok((package, root)),
                    },
                }
            }
        },
    }
}

/// Reads a document from the front of `s`: the header `CELESTE MAP` as a
/// length-prefixed string where `check_header` asks for it, then the body.
pub open spec fn parse_document(s: Seq<u8>, check_header: bool) -> Result<
    (Seq<char>, ElementView),
    LoadErrorView,
> {
    if check_header {
        match parse_string(s) {
            Err(e) => Err(LoadErrorView::IoError(e)),
            Ok((header, n)) => if header != "CELESTE MAP"@ {
                Err(LoadErrorView::InvalidHeader(header))
            } else {
                parse_body(advance(s, n))
            },
        }
    } else {
        parse_body(s)
    }
}

/// The root of a document with the name of the package among its
/// attributes, as the map is read from it.
pub open spec fn with_package(package: Seq<char>, root: ElementView) -> ElementView {
    ElementView {
        attributes: root.attributes.insert("_package"@, ValueView::String(package)),
        ..root
    }
}

/// The bytes of a string table: its strings, each with its length before it.
pub open spec fn table_bytes(table: Seq<Seq<char>>) -> Seq<u8>
    decreases table.len(),
{
    if table.len() == 0 {
        Seq::empty()
    } else {
        table_bytes(table.drop_last()) + string_bytes(table.last())
    }
}

/// The bytes of the header of a document, where one is asked for.
pub open spec fn header_bytes(write_header: bool) -> Seq<u8> {
    if write_header {
        string_bytes("CELESTE MAP"@)
    } else {
        Seq::empty()
    }
}

/// The bytes of the body of a document: the name of the package, the count
/// of strings in the table, the table, and the bytes of the root element.
pub open spec fn body_bytes(package: Seq<char>, table: Seq<Seq<char>>, root: Seq<u8>) -> Seq<u8> {
    string_bytes(package) + (le_bytes(table.len(), 2) + (table_bytes(table) + root))
}

/// The bytes of a document: the header where one is asked for, and the
/// body; or the reason why the root cannot be written. The table is the one
/// that writing the root makes of an empty table.
pub open spec fn document_bytes(package: Seq<char>, root: Element, write_header: bool) -> Result<
    Seq<u8>,
    StoreError,
> {
    match root.encoding(Seq::empty()) {
        Err(e) => Err(e),
        Ok((body, table)) => Ok(header_bytes(write_header) + body_bytes(package, table, body)),
    }
}

/// Reads a table of `count` strings.
#[verifier::rlimit(30)]
fn read_table(reader: &mut Reader<'_>, count: u16) -> (r: Result<Vec<String>, error::StreamError>)
    ensures
        match parse_table(old(reader)@, count as nat) {
            Ok((table, n)) => r is Ok && string_views(r->Ok_0@) == table && n <= old(reader)@.len()
                && final(reader)@ == advance(old(reader)@, n),
            Err(e) => r == Err::<Vec<String>, error::StreamError>(e),
        },
{
    let ghost front = reader@;
    let mut lookup: Vec<String> = Vec::new();
    let mut i: u16 = 0;
    let ghost mut taken: nat = 0;
    proof {
        assert(front.skip(0) == front);
        assert(string_views(lookup@) =~= Seq::empty());
    }
    while i < count
        invariant
            i <= count,
            front == old(reader)@,
            taken <= front.len(),
            reader@ == front.skip(taken as int),
            parse_table(front, i as nat) == Ok::<(Seq<Seq<char>>, nat), error::StreamError>(
                (string_views(lookup@), taken),
            ),
        decreases count - i,
    {
        let ghost here = reader@;
        assert(here == advance(front, taken));
        let text = match reader.read_string() {
            Ok(text) => text,
            Err(e) => {
                proof {
                    lemma_parse_table_error_stays(front, (i + 1) as nat, count as nat);
                }
                return Err(e);
            },
        };
        proof {
            let m = parse_string(here)->Ok_0.1;
            assert(reader@ =~= front.skip((taken + m) as int));
            taken = taken + m;
        }
        let ghost before = string_views(lookup@);
        lookup.push(text);
        assert(string_views(lookup@) == before.push(text@));
        i += 1;
    }
    Ok(lookup)
}

/// Reads a document: the name of its package, and its root element.
#[verifier::rlimit(30)]
pub fn decode_document(bytes: &[u8], check_header: bool) -> (r: Result<(String, Element), LoadError>)
    ensures
        match parse_document(bytes@, check_header) {
            Ok((package, root)) => r is Ok && r->Ok_0.0@ == package && r->Ok_0.1@ == root,
            Err(e) => r is Err && r->Err_0@ == e,
        },
{
    proof {
        reveal(parse_body);
    }
    let mut reader = Reader::new(bytes);
    if check_header {
        let header = match reader.read_string() {
            Ok(header) => header,
            Err(e) => {
                return Err(LoadError::IoError(e));
            },
        };
        if !str_eq(header.as_str(), "CELESTE MAP") {
            return Err(LoadError::InvalidHeader(header));
        }
    }
    let ghost s = reader@;
    assert(s == if check_header {
        advance(bytes@, parse_string(bytes@)->Ok_0.1)
    } else {
        bytes@
    });
    let package = match reader.read_string() {
        Ok(package) => package,
        Err(e) => {
            return Err(LoadError::IoError(e));
        },
    };
    let ghost rest = reader@;
    let count = match reader.read_u16() {
        Ok(count) => count,
        Err(e) => {
            return Err(LoadError::IoError(e));
        },
    };
    let ghost front = reader@;
    assert(front == advance(rest, 2));
    let lookup = match read_table(&mut reader, count) {
        Ok(lookup) => lookup,
        Err(e) => {
            return Err(LoadError::IoError(e));
        },
    };
    proof {
        let n = parse_string(s)->Ok_0.1;
        let m = parse_table(front, count as nat)->Ok_0.1;
        assert(rest == advance(s, n));
        assert(reader@ =~= advance(rest, 2 + m));
        assert(parse_document(bytes@, check_header) == parse_body(s));
    }
    let root = match Element::decode(&mut reader, &lookup) {
        Ok(root) => root,
        Err(e) => {
            return Err(e);
        },
    };
    Ok((package, root))
}

/// Writes a document: the header where one is asked for, the name of the
/// package, the string table that writing the root makes, and the root
/// element.
#[verifier::rlimit(30)]
pub fn encode_document(package: &str, root: &Element, write_header: bool) -> (r: Result<
    Vec<u8>,
    StoreError,
>)
    ensures
        match document_bytes(package@, *root, write_header) {
            Ok(bytes) => r is Ok && r->Ok_0@ == bytes,
            Err(e) => r == Err::<Vec<u8>, StoreError>(e),
        },
        r is Ok ==> parse_document(r->Ok_0@, write_header) == Ok::<
            (Seq<char>, ElementView),
            LoadErrorView,
        >((package@, root@)),
{
    let mut body: Vec<u8> = Vec::new();
    let mut strings = StringTable::new();
    match root.encode(&mut body, &mut strings) {
        Ok(()) => {},
        Err(e) => {
            return Err(e);
        },
    }
    let ghost table = strings.strings();
    let mut out: Vec<u8> = Vec::new();
    if write_header {
        out.write_string("CELESTE MAP");
    }
    // a string in memory is no longer than a machine word counts
    let _length = package.as_bytes().len();
    out.write_string(package);
    let count = strings.len();
    out.extend_from_slice(wire::write_u16(count as u16).as_slice());
    let ghost head = out@;
    let mut i: usize = 0;
    assert(table.take(0) =~= Seq::empty());
    assert(out@ =~= head + table_bytes(table.take(0)));
    while i < count
        invariant
            i <= count,
            count == table.len(),
            table == strings.strings(),
            out@ == head + table_bytes(table.take(i as int)),
        decreases count - i,
    {
        match strings.get(i) {
            Some(text) => {
                assert(table.take(i + 1).drop_last() == table.take(i as int));
                out.write_string(text.as_str());
                assert(out@ =~= head + table_bytes(table.take(i + 1)));
            },
            None => {},
        }
        i += 1;
    }
    assert(table.take(count as int) == table);
    out.extend_from_slice(body.as_slice());
    assert(out@ =~= document_bytes(package@, *root, write_header)->Ok_0);
    proof {
        read_back::lemma_document_read_back(package@, *root, write_header, Seq::empty());
        assert(out@ + Seq::<u8>::empty() =~= out@);
    }
    Ok(out)
}

impl MapData {
    /// Loads a [`MapData`] from the bytes of a document.
    ///
    /// # Errors
    /// Errors if the map fails to load. See [`LoadError`] for more
    /// information.
    pub fn load(bytes: &[u8], check_header: bool) -> (r: Result<MapData, LoadError>)
        ensures
            match parse_document(bytes@, check_header) {
                Err(e) => r is Err && r->Err_0@ == e,
                Ok((package, root)) => match map_of(with_package(package, root)) {
                    Err(e) => r is Err && r->Err_0@ == e,
                    Ok(map) => r is Ok && r->Ok_0@ == map,
                },
            },
    {
        let (package, mut root) = decode_document(bytes, check_header)?;
        let ghost before = root@;
        map_serde::put(&mut root.attributes, "_package", Value::String(package));
        proof {
            element::lemma_children_view(root);
            assert(root@ == with_package(package@, before)) by {
                assert(root@.children == before.children);
            }
        }
        MapData::read(root)
    }

    /// Stores this [`MapData`] as the bytes of a document.
    ///
    /// The tree that is written holds what [`element_of_map`] says, without
    /// the name of the package among the attributes of its root; that name
    /// stands in front of the string table.
    ///
    /// What is stored is loaded again as the same map, where the map is one
    /// that comes back from its element.
    ///
    /// # Errors
    /// Errors if the map holds more than the format has room for.
    pub fn store(self, write_header: bool) -> (r: Result<Vec<u8>, StoreError>)
        ensures
            r is Ok ==> parse_document(r->Ok_0@, write_header) is Ok && with_package(
                parse_document(r->Ok_0@, write_header)->Ok_0.0,
                parse_document(r->Ok_0@, write_header)->Ok_0.1,
            ) == element_of_map(self@),
            r is Ok && round_trip::map_comes_back(self@) ==> map_of(
                with_package(
                    parse_document(r->Ok_0@, write_header)->Ok_0.0,
                    parse_document(r->Ok_0@, write_header)->Ok_0.1,
                ),
            ) == Ok::<MapDataView, LoadErrorView>(self@),
            exists|root: Element|
                with_package(self@.package, root@) == element_of_map(self@) && !root@.attributes.dom().contains(
                    "_package"@,
                ) && match #[trigger] document_bytes(self@.package, root, write_header) {
                    Ok(bytes) => r is Ok && r->Ok_0@ == bytes,
                    Err(e) => r == Err::<Vec<u8>, StoreError>(e),
                },
    {
        let ghost view = self@;
        let mut root = self.write();
        let ghost whole = root@;
        let package = match root.attributes.remove("_package") {
            Some(Value::String(package)) => package,
            _ => String::new(),
        };
        proof {
            element::lemma_children_view(root);
            assert(root@.children == whole.children);
            assert(with_package(view.package, root@).attributes =~= whole.attributes);
            if round_trip::map_comes_back(view) {
                round_trip::lemma_map_round_trip(view);
            }
        }
        encode_document(package.as_str(), &root, write_header)
    }
}

} // verus!
