//! What can go wrong when a document is read or written.

use vstd::prelude::*;
use vstd::std_specs::convert::FromSpecImpl;
use crate::element::{Value, ValueView};

verus! {

/// Why the bytes of a document could not be read.
#[derive(Debug, Clone, Copy, PartialEq, Eq, Structural)]
pub enum StreamError {
    /// The bytes ended where more were needed.
    UnexpectedEof,
    /// A variable-length integer does not fit sixty-four bits.
    OversizedInteger,
    /// A text is not well-formed UTF-8.
    InvalidUtf8,
}

/// Something that can go wrong when loading a map.
#[derive(Debug)]
#[non_exhaustive]
pub enum LoadError {
    /// The map header was invalid.
    InvalidHeader(String),
    /// The bytes themselves could not be read.
    IoError(StreamError),
    /// A string was outside the range of the lookup table for strings.
    InvalidString(usize),
    /// A value of an element was of an invalid type.
    InvalidValueType(u8),
    /// An element was missing a required value.
    MissingElement(&'static str),
    /// An element was of a type not valid for its field.
    InvalidFieldType(&'static str, Value),
    /// An element had a field that was invalid.
    InvalidFieldData(&'static str, String),
    /// An element had an unexpected name for its location.
    InvalidElementName(String, &'static str),
}

/// What a [`LoadError`] holds, its texts as character sequences.
pub ghost enum LoadErrorView {
    InvalidHeader(Seq<char>),
    IoError(StreamError),
    InvalidString(usize),
    InvalidValueType(u8),
    MissingElement(Seq<char>),
    InvalidFieldType(Seq<char>, ValueView),
    InvalidFieldData(Seq<char>, Seq<char>),
    InvalidElementName(Seq<char>, Seq<char>),
}

impl View for LoadError {
    type V = LoadErrorView;

    open spec fn view(&self) -> LoadErrorView {
        match self {
            LoadError::InvalidHeader(h) => LoadErrorView::InvalidHeader(h@),
            LoadError::IoError(e) => LoadErrorView::IoError(*e),
            LoadError::InvalidString(i) => LoadErrorView::InvalidString(*i),
            LoadError::InvalidValueType(t) => LoadErrorView::InvalidValueType(*t),
            LoadError::MissingElement(name) => LoadErrorView::MissingElement(name@),
            LoadError::InvalidFieldType(name, v) => LoadErrorView::InvalidFieldType(name@, v@),
            LoadError::InvalidFieldData(name, d) => LoadErrorView::InvalidFieldData(name@, d@),
            LoadError::InvalidElementName(name, expected) => LoadErrorView::InvalidElementName(
                name@,
                expected@,
            ),
        }
    }
}

impl From<StreamError> for LoadError {
    fn from(value: StreamError) -> (r: LoadError)
        ensures
            r == LoadError::IoError(value),
    {
        LoadError::IoError(value)
    }
}

impl FromSpecImpl<StreamError> for LoadError {
    open spec fn obeys_from_spec() -> bool {
        true
    }

    open spec fn from_spec(v: StreamError) -> LoadError {
        LoadError::IoError(v)
    }
}

impl LoadError {
    /// Tries to clone the [`LoadError`], returning [`None`] if it cannot be
    /// cloned: a failure to read the bytes is reported once and not copied.
    pub fn try_clone(&self) -> (r: Option<LoadError>)
        ensures
            r is None <==> self is IoError,
            r is Some ==> r->Some_0@ == self@,
    {
        Some(
            match self {
                LoadError::InvalidHeader(h) => LoadError::InvalidHeader(h.clone()),
                LoadError::InvalidString(s) => LoadError::InvalidString(*s),
                LoadError::InvalidValueType(t) => LoadError::InvalidValueType(*t),
                LoadError::MissingElement(el) => LoadError::MissingElement(*el),
                LoadError::InvalidFieldType(name, v) => LoadError::InvalidFieldType(
                    *name,
                    v.clone(),
                ),
                LoadError::InvalidFieldData(name, d) => LoadError::InvalidFieldData(
                    *name,
                    d.clone(),
                ),
                LoadError::InvalidElementName(name, expected) => LoadError::InvalidElementName(
                    name.clone(),
                    *expected,
                ),
                LoadError::IoError(_) => { return None; },
            },
        )
    }
}

/// Why a document could not be written: it holds more than the format has
/// room for.
#[derive(Debug, Clone, Copy, PartialEq, Eq, Structural)]
pub enum StoreError {
    /// The document needs more than 65,535 distinct strings in its table.
    TooManyStrings,
    /// An element has more than 255 attributes.
    TooManyAttributes,
    /// An element has more than 65,535 children.
    TooManyChildren,
    /// The run-length encoding of a text takes more than 65,535 bytes.
    TextTooLong,
}

} // verus!
