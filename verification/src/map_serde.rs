//! The conversions between the typed objects of a map and the untyped tree.
//!
//! Reading an element as a typed object takes the attributes that the object
//! knows out of the element, each as a field of a certain kind with a value
//! to stand in where the attribute is absent. Writing is the inverse, save
//! that some fields are left out where they hold their usual value.

use vstd::prelude::*;
use vstd::std_specs::convert::{FromSpecImpl, TryFromSpecImpl};
use crate::element::{element_views, Attributes, Element, ElementView, Value, ValueView};
use crate::error::{LoadError, LoadErrorView};
use crate::float::{bits_of_int, int_of_bits, Float32};
use crate::map_data::{
    views, Decal, DecalView, Entity, EntityView, Filler, Level, LevelData, LevelDataView, LevelView,
    MapData, MapDataView,
};
use crate::tilemap::{char_grid_text, grid_from_rows, id_grid_text, id_rows, Grid, Tilemap};
use crate::sealed::Sealed;
use crate::text::{
    decimal_text, format_i32, hex_byte, hex_digit_value, hex_pair, hex_value, is_hex_digit, join,
    join_strings, lines, parse_i32, spec_parse_i32, str_eq, string_views, to_chars,
};

verus! {

/// The kinds of field that an attribute can be read as.
pub ghost enum Kind {
    /// A text, written plainly or run-length encoded.
    Text,
    /// A single-precision number; an integer is converted.
    Float,
    /// An integer; a single-precision number is cut off toward zero.
    Integer,
    /// A truth value.
    Boolean,
}

/// Whether a value can be read as a field of the given kind.
pub open spec fn fits(value: ValueView, kind: Kind) -> bool {
    match kind {
        Kind::Text => value is String || value is RleString,
        Kind::Float => value is Float || value is Integer,
        Kind::Integer => value is Integer || value is Float,
        Kind::Boolean => value is Boolean,
    }
}

/// The error of reading the attribute `key` as a field of the given kind:
/// there is one where the attribute is present and its value does not fit.
pub open spec fn kind_error(attrs: Map<Seq<char>, ValueView>, key: Seq<char>, kind: Kind) -> Option<
    LoadErrorView,
> {
    if attrs.dom().contains(key) && !fits(attrs[key], kind) {
        Some(LoadErrorView::InvalidFieldType(key, attrs[key]))
    } else {
        None
    }
}

/// The first of two errors that is there.
pub open spec fn first(a: Option<LoadErrorView>, b: Option<LoadErrorView>) -> Option<LoadErrorView> {
    if a is Some {
        a
    } else {
        b
    }
}

/// The text of the attribute `key`, or `default` where it is absent.
pub open spec fn text_of(attrs: Map<Seq<char>, ValueView>, key: Seq<char>, default: Seq<char>) -> Seq<
    char,
> {
    if attrs.dom().contains(key) {
        match attrs[key] {
            ValueView::String(s) => s,
            ValueView::RleString(s) => s,
            _ => default,
        }
    } else {
        default
    }
}

/// The number of the attribute `key`, or `default` where it is absent.
pub open spec fn float_of(attrs: Map<Seq<char>, ValueView>, key: Seq<char>, default: Float32) -> Float32 {
    if attrs.dom().contains(key) {
        match attrs[key] {
            ValueView::Float(x) => x,
            ValueView::Integer(i) => Float32 { bits: bits_of_int(i as int) as u32 },
            _ => default,
        }
    } else {
        default
    }
}

/// The integer of the attribute `key`, or `default` where it is absent.
pub open spec fn int_of(attrs: Map<Seq<char>, ValueView>, key: Seq<char>, default: i32) -> i32 {
    if attrs.dom().contains(key) {
        match attrs[key] {
            ValueView::Integer(i) => i,
            ValueView::Float(x) => int_of_bits(x.bits) as i32,
            _ => default,
        }
    } else {
        default
    }
}

/// The truth value of the attribute `key`, or `default` where it is absent.
pub open spec fn bool_of(attrs: Map<Seq<char>, ValueView>, key: Seq<char>, default: bool) -> bool {
    if attrs.dom().contains(key) {
        match attrs[key] {
            ValueView::Boolean(b) => b,
            _ => default,
        }
    } else {
        default
    }
}

/// The integer of the attribute `key`, where it is present; nothing where
/// it is absent. A single-precision number is cut off toward zero.
pub open spec fn optional_int_of(attrs: Map<Seq<char>, ValueView>, key: Seq<char>) -> Option<i32> {
    if attrs.dom().contains(key) {
        match attrs[key] {
            ValueView::Integer(i) => Some(i),
            ValueView::Float(x) => Some(int_of_bits(x.bits) as i32),
            _ => None,
        }
    } else {
        None
    }
}

/// The text of the attribute `key`, written plainly or run-length encoded,
/// where it is present; nothing where it is absent.
pub open spec fn optional_text_of(attrs: Map<Seq<char>, ValueView>, key: Seq<char>) -> Option<
    Seq<char>,
> {
    if attrs.dom().contains(key) {
        match attrs[key] {
            ValueView::String(s) => Some(s),
            ValueView::RleString(s) => Some(s),
            _ => None,
        }
    } else {
        None
    }
}

/// Takes the attribute `key` out and reads it as a text.
pub fn remove_text(attrs: &mut Attributes, key: &'static str, default: &str) -> (r: Result<
    String,
    LoadError,
>)
    ensures
        final(attrs)@ == old(attrs)@.remove(key@),
        match kind_error(old(attrs)@, key@, Kind::Text) {
            Some(e) => r is Err && r->Err_0@ == e,
            None => r is Ok && r->Ok_0@ == text_of(old(attrs)@, key@, default@),
        },
{
    match attrs.remove(key) {
        Some(Value::String(s)) => Ok(s),
        Some(Value::RleString(s)) => Ok(s),
        Some(other) => Err(LoadError::InvalidFieldType(key, other)),
        None => Ok(default.to_owned()),
    }
}

/// Takes the attribute `key` out and reads it as a text that may be
/// absent.
pub fn remove_optional_text(attrs: &mut Attributes, key: &'static str) -> (r: Result<
    Option<String>,
    LoadError,
>)
    ensures
        final(attrs)@ == old(attrs)@.remove(key@),
        match kind_error(old(attrs)@, key@, Kind::Text) {
            Some(e) => r is Err && r->Err_0@ == e,
            None => r is Ok && match r->Ok_0 {
                Some(s) => optional_text_of(old(attrs)@, key@) == Some(s@),
                None => optional_text_of(old(attrs)@, key@) is None,
            },
        },
{
    match attrs.remove(key) {
        Some(Value::String(s)) => Ok(Some(s)),
        Some(Value::RleString(s)) => Ok(Some(s)),
        Some(other) => Err(LoadError::InvalidFieldType(key, other)),
        None => Ok(None),
    }
}

/// Takes the attribute `key` out and reads it as a single-precision number.
pub fn remove_float(attrs: &mut Attributes, key: &'static str, default: Float32) -> (r: Result<
    Float32,
    LoadError,
>)
    ensures
        final(attrs)@ == old(attrs)@.remove(key@),
        match kind_error(old(attrs)@, key@, Kind::Float) {
            Some(e) => r is Err && r->Err_0@ == e,
            None => r is Ok && r->Ok_0 == float_of(old(attrs)@, key@, default),
        },
{
    match attrs.remove(key) {
        Some(Value::Float(x)) => Ok(x),
        Some(Value::Integer(i)) => Ok(Float32::from_i32(i)),
        Some(other) => Err(LoadError::InvalidFieldType(key, other)),
        None => Ok(default),
    }
}

/// Takes the attribute `key` out and reads it as an integer.
pub fn remove_int(attrs: &mut Attributes, key: &'static str, default: i32) -> (r: Result<
    i32,
    LoadError,
>)
    ensures
        final(attrs)@ == old(attrs)@.remove(key@),
        match kind_error(old(attrs)@, key@, Kind::Integer) {
            Some(e) => r is Err && r->Err_0@ == e,
            None => r is Ok && r->Ok_0 == int_of(old(attrs)@, key@, default),
        },
{
    match attrs.remove(key) {
        Some(Value::Integer(i)) => Ok(i),
        Some(Value::Float(x)) => Ok(x.to_i32()),
        Some(other) => Err(LoadError::InvalidFieldType(key, other)),
        None => Ok(default),
    }
}

/// Takes the attribute `key` out and reads it as an integer that may be
/// absent.
pub fn remove_optional_int(attrs: &mut Attributes, key: &'static str) -> (r: Result<
    Option<i32>,
    LoadError,
>)
    ensures
        final(attrs)@ == old(attrs)@.remove(key@),
        match kind_error(old(attrs)@, key@, Kind::Integer) {
            Some(e) => r is Err && r->Err_0@ == e,
            None => r is Ok && r->Ok_0 == optional_int_of(old(attrs)@, key@),
        },
{
    match attrs.remove(key) {
        Some(Value::Integer(i)) => Ok(Some(i)),
        Some(Value::Float(x)) => Ok(Some(x.to_i32())),
        Some(other) => Err(LoadError::InvalidFieldType(key, other)),
        None => Ok(None),
    }
}

/// The byte that the `i`-th pair of hexadecimal digits of `s` denotes.
pub open spec fn hex_byte_at(s: Seq<char>, i: int) -> u8 {
    (hex_value(s[2 * i]) * 16 + hex_value(s[2 * i + 1])) as u8
}

/// The color that a text denotes: six or eight hexadecimal digits give red,
/// green, blue and, with eight, alpha; six digits mean full alpha. Any other
/// text denotes no color.
pub open spec fn color_of_text(s: Seq<char>) -> Option<Seq<u8>> {
    if (s.len() == 6 || s.len() == 8) && (forall|i: int| 0 <= i < s.len() ==> is_hex_digit(#[trigger] s[i])) {
        Some(
            seq![
                hex_byte_at(s, 0),
                hex_byte_at(s, 1),
                hex_byte_at(s, 2),
                if s.len() == 8 { hex_byte_at(s, 3) } else { 0xFFu8 },
            ],
        )
    } else {
        None
    }
}

/// The text of a color: its four bytes as eight lower-case hexadecimal
/// digits.
pub open spec fn color_text(color: Seq<u8>) -> Seq<char> {
    hex_pair(color[0]) + hex_pair(color[1]) + hex_pair(color[2]) + hex_pair(color[3])
}

/// Reads a color from six or eight hexadecimal digits.
pub fn parse_color(color_string: String) -> (r: Result<[u8; 4], LoadError>)
    ensures
        match color_of_text(color_string@) {
            Some(color) => r is Ok && r->Ok_0@ == color,
            None => r is Err && r->Err_0@ == LoadErrorView::InvalidFieldData(
                "color"@,
                color_string@,
            ),
        },
{
    let chars = to_chars(color_string.as_str());
    let n = chars.len();
    if n != 6 && n != 8 {
        return Err(LoadError::InvalidFieldData("color", color_string));
    }
    let mut digits: Vec<u8> = Vec::new();
    let mut i: usize = 0;
    while i < n
        invariant
            i <= n,
            n == chars@.len(),
            chars@ == color_string@,
            digits@.len() == i,
            forall|j: int| 0 <= j < i ==> is_hex_digit(#[trigger] chars@[j]),
            forall|j: int| 0 <= j < i ==> #[trigger] digits@[j] == hex_value(chars@[j]),
        decreases n - i,
    {
        match hex_digit_value(chars[i]) {
            Some(d) => {
                digits.push(d);
            },
            None => {
                assert(!is_hex_digit(color_string@[i as int]));
                return Err(LoadError::InvalidFieldData("color", color_string));
            },
        }
        i += 1;
    }
    let alpha: u8 = if n == 8 {
        digits[6] * 16 + digits[7]
    } else {
        0xFF
    };
    let color = [
        digits[0] * 16 + digits[1],
        digits[2] * 16 + digits[3],
        digits[4] * 16 + digits[5],
        alpha,
    ];
    assert(color@ =~= color_of_text(color_string@)->Some_0);
    Ok(color)
}

/// Writes a color as eight lower-case hexadecimal digits.
pub fn format_color(color: &[u8; 4]) -> (r: String)
    ensures
        r@ == color_text(color@),
{
    let mut parts: Vec<String> = Vec::new();
    parts.push(hex_byte(color[0]));
    parts.push(hex_byte(color[1]));
    parts.push(hex_byte(color[2]));
    parts.push(hex_byte(color[3]));
    proof {
        reveal_strlit("");
        let views = string_views(parts@);
        assert(""@ == Seq::<char>::empty());
        assert(views == seq![
            hex_pair(color@[0]),
            hex_pair(color@[1]),
            hex_pair(color@[2]),
            hex_pair(color@[3]),
        ]);
        reveal_with_fuel(join, 5);
        assert(views.drop_last() == seq![
            hex_pair(color@[0]),
            hex_pair(color@[1]),
            hex_pair(color@[2]),
        ]);
        assert(views.drop_last().drop_last() == seq![hex_pair(color@[0]), hex_pair(color@[1])]);
        assert(views.drop_last().drop_last().drop_last() == seq![hex_pair(color@[0])]);
        assert(join(views, ""@) =~= color_text(color@));
    }
    join_strings(&parts, "")
}

/// A color comes back from its text.
pub proof fn lemma_color_round_trip(color: Seq<u8>)
    requires
        color.len() == 4,
    ensures
        color_of_text(color_text(color)) == Some(color),
{
    let s = color_text(color);
    assert(s.len() == 8);
    assert forall|i: int| 0 <= i < 4 implies is_hex_digit(#[trigger] s[2 * i]) && is_hex_digit(
        s[2 * i + 1],
    ) && hex_byte_at(s, i) == color[i] by {
        crate::text::lemma_hex_char_value((color[i] / 16) as nat);
        crate::text::lemma_hex_char_value((color[i] % 16) as nat);
    }
    assert forall|j: int| 0 <= j < s.len() implies is_hex_digit(#[trigger] s[j]) by {
        let i = j / 2;
        assert(is_hex_digit(s[2 * i]) && is_hex_digit(s[2 * i + 1]));
        assert(j == 2 * i || j == 2 * i + 1);
    }
    assert(color_of_text(s)->Some_0 =~= color);
}

/// An object that is part of a map: it can be read from an element of the
/// tree and written as one.
///
/// This trait is **sealed.**
pub trait MapElement: Sized + View + Sealed {
    /// The object that an element stands for, or why it stands for none.
    spec fn spec_read(e: ElementView) -> Result<Self::V, LoadErrorView>;

    /// The element that stands for an object.
    spec fn spec_write(v: Self::V) -> ElementView;

    /// Reads the object that an element stands for.
    fn read(value: Element) -> (r: Result<Self, LoadError>)
        ensures
            match Self::spec_read(value@) {
                Ok(v) => r is Ok && r->Ok_0@ == v,
                Err(e) => r is Err && r->Err_0@ == e,
            },
    ;

    /// Writes the object as an element.
    fn write(self) -> (r: Element)
        ensures
            r@ == Self::spec_write(self@),
    ;
}

/// What a list of readings comes to: all that was read, or the first error.
pub open spec fn collect<T>(results: Seq<Result<T, LoadErrorView>>) -> Result<Seq<T>, LoadErrorView>
    decreases results.len(),
{
    if results.len() == 0 {
        Ok(Seq::empty())
    } else {
        match collect(results.drop_last()) {
            Err(e) => Err(e),
            Ok(front) => match results.last() {
                Err(e) => Err(e),
                Ok(v) => Ok(front.push(v)),
            },
        }
    }
}

/// The objects that a list of elements stands for, or the first error.
pub open spec fn read_each<T: MapElement>(elements: Seq<ElementView>) -> Result<
    Seq<T::V>,
    LoadErrorView,
> {
    collect(elements.map_values(|e: ElementView| T::spec_read(e)))
}

/// The elements that stand for a list of objects.
pub open spec fn write_each<T: MapElement>(items: Seq<T::V>) -> Seq<ElementView> {
    items.map_values(|v: T::V| T::spec_write(v))
}

/// Reads the objects that a list of elements stands for, up to the first
/// that stands for none.
pub fn read_all<T: MapElement>(elements: Vec<Element>) -> (r: Result<Vec<T>, LoadError>)
    ensures
        match read_each::<T>(element_views(elements@)) {
            Ok(vs) => r is Ok && views(r->Ok_0@) == vs,
            Err(e) => r is Err && r->Err_0@ == e,
        },
{
    let ghost results = element_views(elements@).map_values(|e: ElementView| T::spec_read(e));
    let mut out: Vec<T> = Vec::new();
    assert(results.take(0) =~= Seq::empty());
    assert(views(out@) =~= Seq::<T::V>::empty());
    for element in iter: elements
        invariant
            iter.seq() == elements@,
            results == element_views(elements@).map_values(|e: ElementView| T::spec_read(e)),
            collect(results.take(iter.index())) == Ok::<Seq<T::V>, LoadErrorView>(views(out@)),
    {
        let ghost i = iter.index();
        let ghost before = views(out@);
        proof {
            assert(results.take(i + 1).drop_last() == results.take(i));
            assert(results.take(i + 1).last() == T::spec_read(element@));
        }
        let item = match T::read(element) {
            Ok(item) => item,
            Err(e) => {
                proof {
                    lemma_collect_error_stays(results, i + 1);
                }
                return Err(e);
            },
        };
        out.push(item);
        assert(views(out@) == before.push(item@));
    }
    assert(results.take(results.len() as int) == results);
    Ok(out)
}

/// Once a reading has failed, reading further does not change the outcome.
pub proof fn lemma_collect_error_stays<T>(results: Seq<Result<T, LoadErrorView>>, n: int)
    requires
        0 <= n <= results.len(),
        collect(results.take(n)) is Err,
    ensures
        collect(results) == collect(results.take(n)),
    decreases results.len() - n,
{
    if n == results.len() {
        assert(results.take(n) == results);
    } else {
        assert(results.take(n + 1).drop_last() == results.take(n));
        lemma_collect_error_stays(results, n + 1);
    }
}

/// Writes each object of a list as an element.
pub fn write_all<T: MapElement>(items: Vec<T>) -> (r: Vec<Element>)
    ensures
        element_views(r@) == write_each::<T>(views(items@)),
{
    let ghost target = write_each::<T>(views(items@));
    let mut out: Vec<Element> = Vec::new();
    assert(element_views(out@) =~= target.take(0));
    for item in iter: items
        invariant
            iter.seq() == items@,
            target == write_each::<T>(views(items@)),
            element_views(out@) == target.take(iter.index()),
    {
        let ghost before = element_views(out@);
        let element = item.write();
        out.push(element);
        assert(element_views(out@) == before.push(element@));
    }
    assert(target.take(target.len() as int) == target);
    out
}

/// The error of an element that is named otherwise than its place demands.
pub open spec fn name_error(e: ElementView, expected: Seq<char>) -> Option<LoadErrorView> {
    if e.name != expected {
        Some(LoadErrorView::InvalidElementName(e.name, expected))
    } else {
        None
    }
}

/// An element with the given name and attributes and no children.
pub open spec fn leaf(name: Seq<char>, attributes: Map<Seq<char>, ValueView>) -> ElementView {
    ElementView { name, attributes, children: Seq::empty() }
}

/// `attrs` with `value` under `key` where `wanted` holds, else unchanged.
pub open spec fn insert_if(
    attrs: Map<Seq<char>, ValueView>,
    wanted: bool,
    key: Seq<char>,
    value: ValueView,
) -> Map<Seq<char>, ValueView> {
    if wanted {
        attrs.insert(key, value)
    } else {
        attrs
    }
}

/// What tells the attribute names of one kind of object apart: the length of
/// a name, its first character and its last.
pub open spec fn shape(name: Seq<char>) -> (nat, char, char) {
    (name.len(), name.first(), name.last())
}

/// The names of the attributes that a decal knows differ in shape.
pub proof fn lemma_decal_names()
    ensures
        shape("color"@) == (5nat, 'c', 'r'),
        shape("x"@) == (1nat, 'x', 'x'),
        shape("y"@) == (1nat, 'y', 'y'),
        shape("scaleX"@) == (6nat, 's', 'X'),
        shape("scaleY"@) == (6nat, 's', 'Y'),
        shape("texture"@) == (7nat, 't', 'e'),
        shape("depth"@) == (5nat, 'd', 'h'),
        shape("rotation"@) == (8nat, 'r', 'n'),
{
    reveal_strlit("color");
    reveal_strlit("x");
    reveal_strlit("y");
    reveal_strlit("scaleX");
    reveal_strlit("scaleY");
    reveal_strlit("texture");
    reveal_strlit("depth");
    reveal_strlit("rotation");
}

/// The first wrong kind among the attributes that a decal knows, in the
/// order in which they are read.
pub open spec fn decal_kind_error(a: Map<Seq<char>, ValueView>) -> Option<LoadErrorView> {
    first(
        kind_error(a, "color"@, Kind::Text),
        first(
            kind_error(a, "x"@, Kind::Float),
            first(
                kind_error(a, "y"@, Kind::Float),
                first(
                    kind_error(a, "scaleX"@, Kind::Float),
                    first(
                        kind_error(a, "scaleY"@, Kind::Float),
                        first(
                            kind_error(a, "texture"@, Kind::Text),
                            first(
                                kind_error(a, "depth"@, Kind::Integer),
                                kind_error(a, "rotation"@, Kind::Float),
                            ),
                        ),
                    ),
                ),
            ),
        ),
    )
}

/// The decal that an element stands for. The element must be named `decal`.
/// An absent position is the origin, an absent scale is one, an absent
/// texture is empty, absent depth and rotation are zero, and an absent color
/// is opaque white. What else the element holds is ignored.
pub open spec fn decal_of(e: ElementView) -> Result<DecalView, LoadErrorView> {
    let a = e.attributes;
    let color = text_of(a, "color"@, "ffffff"@);
    if name_error(e, "decal"@) is Some {
        Err(name_error(e, "decal"@)->Some_0)
    } else if decal_kind_error(a) is Some {
        Err(decal_kind_error(a)->Some_0)
    } else if color_of_text(color) is None {
        Err(LoadErrorView::InvalidFieldData("color"@, color))
    } else {
        Ok(
            DecalView {
                position: (
                    float_of(a, "x"@, Float32 { bits: 0 }),
                    float_of(a, "y"@, Float32 { bits: 0 }),
                ),
                scale: (
                    float_of(a, "scaleX"@, Float32 { bits: 0x3f80_0000 }),
                    float_of(a, "scaleY"@, Float32 { bits: 0x3f80_0000 }),
                ),
                texture: text_of(a, "texture"@, ""@),
                color: color_of_text(color)->Some_0,
                depth: int_of(a, "depth"@, 0),
                rotation: float_of(a, "rotation"@, Float32 { bits: 0 }),
            },
        )
    }
}

/// The element that stands for a decal. A rotation of zero, a depth of zero
/// and the color opaque white are left out.
pub open spec fn element_of_decal(d: DecalView) -> ElementView {
    let always = Map::<Seq<char>, ValueView>::empty().insert(
        "x"@,
        ValueView::Float(d.position.0),
    ).insert("y"@, ValueView::Float(d.position.1)).insert(
        "scaleX"@,
        ValueView::Float(d.scale.0),
    ).insert("scaleY"@, ValueView::Float(d.scale.1)).insert("texture"@, ValueView::String(d.texture));
    let with_rotation = insert_if(
        always,
        !d.rotation.is_zero(),
        "rotation"@,
        ValueView::Float(d.rotation),
    );
    let with_depth = insert_if(with_rotation, d.depth != 0, "depth"@, ValueView::Integer(d.depth));
    leaf(
        "decal"@,
        insert_if(
            with_depth,
            d.color != seq![0xFFu8, 0xFFu8, 0xFFu8, 0xFFu8],
            "color"@,
            ValueView::String(color_text(d.color)),
        ),
    )
}

impl MapElement for Decal {
    open spec fn spec_read(e: ElementView) -> Result<DecalView, LoadErrorView> {
        decal_of(e)
    }

    open spec fn spec_write(v: DecalView) -> ElementView {
        element_of_decal(v)
    }

    fn read(value: Element) -> (r: Result<Decal, LoadError>) {
        proof {
            lemma_decal_names();
        }
        if !str_eq(value.name.as_str(), "decal") {
            return Err(LoadError::InvalidElementName(value.name, "decal"));
        }
        let mut attrs = value.attributes;
        let color_string = remove_text(&mut attrs, "color", "ffffff")?;
        let x = remove_float(&mut attrs, "x", Float32::zero())?;
        let y = remove_float(&mut attrs, "y", Float32::zero())?;
        let scale_x = remove_float(&mut attrs, "scaleX", Float32::one())?;
        let scale_y = remove_float(&mut attrs, "scaleY", Float32::one())?;
        let texture = remove_text(&mut attrs, "texture", "")?;
        let depth = remove_int(&mut attrs, "depth", 0)?;
        let rotation = remove_float(&mut attrs, "rotation", Float32::zero())?;
        let color = parse_color(color_string)?;
        Ok(Decal { position: (x, y), scale: (scale_x, scale_y), texture, color, depth, rotation })
    }

    fn write(self) -> (r: Element) {
        let mut attributes = Attributes::new();
        put(&mut attributes, "x", Value::Float(self.position.0));
        put(&mut attributes, "y", Value::Float(self.position.1));
        put(&mut attributes, "scaleX", Value::Float(self.scale.0));
        put(&mut attributes, "scaleY", Value::Float(self.scale.1));
        put(&mut attributes, "texture", Value::String(self.texture));
        if !self.rotation.is_zero() {
            put(&mut attributes, "rotation", Value::Float(self.rotation));
        }
        if self.depth != 0 {
            put(&mut attributes, "depth", Value::Integer(self.depth));
        }
        let white = self.color[0] == 0xFF && self.color[1] == 0xFF && self.color[2] == 0xFF
            && self.color[3] == 0xFF;
        assert(white == (self.color@ =~= seq![0xFFu8, 0xFFu8, 0xFFu8, 0xFFu8]));
        if !white {
            put(&mut attributes, "color", Value::String(format_color(&self.color)));
        }
        leaf_element("decal", attributes)
    }
}

impl TryFrom<Element> for Decal {
    type Error = LoadError;

    fn try_from(value: Element) -> (r: Result<Decal, LoadError>)
        ensures
            match decal_of(value@) {
                Ok(decal) => r is Ok && r->Ok_0@ == decal,
                Err(e) => r is Err && r->Err_0@ == e,
            },
    {
        Decal::read(value)
    }
}

impl TryFromSpecImpl<Element> for Decal {
    open spec fn obeys_try_from_spec() -> bool {
        false
    }

    open spec fn try_from_spec(v: Element) -> Result<Decal, LoadError> {
        arbitrary()
    }
}

/// Takes the attribute `key` out, whatever it holds.
pub fn discard(attrs: &mut Attributes, key: &str)
    ensures
        final(attrs)@ == old(attrs)@.remove(key@),
{
    let _ = attrs.remove(key);
}

/// Gives the attribute `key` the value `value`.
pub fn put(attrs: &mut Attributes, key: &str, value: Value)
    ensures
        final(attrs)@ == old(attrs)@.insert(key@, value@),
{
    let _ = attrs.insert(key.to_owned(), value);
}

/// An element with the given name and attributes and no children.
pub fn leaf_element(name: &str, attributes: Attributes) -> (r: Element)
    ensures
        r@ == leaf(name@, attributes@),
{
    let r = Element { name: name.to_owned(), attributes, children: Vec::new() };
    assert(r@.children =~= Seq::empty());
    r
}

impl From<Decal> for Element {
    fn from(value: Decal) -> (r: Element)
        ensures
            r@ == element_of_decal(value@),
    {
        value.write()
    }
}

impl FromSpecImpl<Decal> for Element {
    open spec fn obeys_from_spec() -> bool {
        false
    }

    open spec fn from_spec(v: Decal) -> Element {
        arbitrary()
    }
}

/// The first wrong kind among the attributes that a filler knows, in the
/// order in which they are read.
pub open spec fn filler_kind_error(a: Map<Seq<char>, ValueView>) -> Option<LoadErrorView> {
    first(
        kind_error(a, "x"@, Kind::Integer),
        first(
            kind_error(a, "y"@, Kind::Integer),
            first(kind_error(a, "w"@, Kind::Integer), kind_error(a, "h"@, Kind::Integer)),
        ),
    )
}

/// The filler rectangle that an element stands for. The element must be
/// named `rect`. What is absent of position and size is zero, and what else
/// the element holds is ignored.
pub open spec fn filler_of(e: ElementView) -> Result<Filler, LoadErrorView> {
    let a = e.attributes;
    if name_error(e, "rect"@) is Some {
        Err(name_error(e, "rect"@)->Some_0)
    } else if filler_kind_error(a) is Some {
        Err(filler_kind_error(a)->Some_0)
    } else {
        Ok(
            Filler {
                position: (int_of(a, "x"@, 0), int_of(a, "y"@, 0)),
                size: (int_of(a, "w"@, 0), int_of(a, "h"@, 0)),
            },
        )
    }
}

/// The element that stands for a filler rectangle.
pub open spec fn element_of_filler(f: Filler) -> ElementView {
    leaf(
        "rect"@,
        Map::<Seq<char>, ValueView>::empty().insert("x"@, ValueView::Integer(f.position.0)).insert(
            "y"@,
            ValueView::Integer(f.position.1),
        ).insert("w"@, ValueView::Integer(f.size.0)).insert("h"@, ValueView::Integer(f.size.1)),
    )
}

/// The names of the attributes that a filler knows differ in shape.
pub proof fn lemma_filler_names()
    ensures
        shape("x"@) == (1nat, 'x', 'x'),
        shape("y"@) == (1nat, 'y', 'y'),
        shape("w"@) == (1nat, 'w', 'w'),
        shape("h"@) == (1nat, 'h', 'h'),
{
    reveal_strlit("x");
    reveal_strlit("y");
    reveal_strlit("w");
    reveal_strlit("h");
}

impl MapElement for Filler {
    open spec fn spec_read(e: ElementView) -> Result<Filler, LoadErrorView> {
        filler_of(e)
    }

    open spec fn spec_write(v: Filler) -> ElementView {
        element_of_filler(v)
    }

    fn read(value: Element) -> (r: Result<Filler, LoadError>) {
        proof {
            lemma_filler_names();
        }
        if !str_eq(value.name.as_str(), "rect") {
            return Err(LoadError::InvalidElementName(value.name, "rect"));
        }
        let mut attrs = value.attributes;
        let x = remove_int(&mut attrs, "x", 0)?;
        let y = remove_int(&mut attrs, "y", 0)?;
        let w = remove_int(&mut attrs, "w", 0)?;
        let h = remove_int(&mut attrs, "h", 0)?;
        Ok(Filler { position: (x, y), size: (w, h) })
    }

    fn write(self) -> (r: Element) {
        let mut attributes = Attributes::new();
        put(&mut attributes, "x", Value::Integer(self.position.0));
        put(&mut attributes, "y", Value::Integer(self.position.1));
        put(&mut attributes, "w", Value::Integer(self.size.0));
        put(&mut attributes, "h", Value::Integer(self.size.1));
        leaf_element("rect", attributes)
    }
}

impl TryFrom<Element> for Filler {
    type Error = LoadError;

    fn try_from(value: Element) -> (r: Result<Filler, LoadError>)
        ensures
            match filler_of(value@) {
                Ok(filler) => r is Ok && r->Ok_0 == filler,
                Err(e) => r is Err && r->Err_0@ == e,
            },
    {
        Filler::read(value)
    }
}

impl TryFromSpecImpl<Element> for Filler {
    open spec fn obeys_try_from_spec() -> bool {
        false
    }

    open spec fn try_from_spec(v: Element) -> Result<Filler, LoadError> {
        arbitrary()
    }
}

impl From<Filler> for Element {
    fn from(value: Filler) -> (r: Element)
        ensures
            r@ == element_of_filler(value),
    {
        value.write()
    }
}

impl FromSpecImpl<Filler> for Element {
    open spec fn obeys_from_spec() -> bool {
        false
    }

    open spec fn from_spec(v: Filler) -> Element {
        arbitrary()
    }
}

/// A decal comes back from its element, unless its rotation is negative
/// zero: that is left out like zero, and read back as zero.
pub proof fn lemma_decal_round_trip(d: DecalView)
    requires
        d.color.len() == 4,
        d.rotation.bits != 0x8000_0000,
    ensures
        decal_of(element_of_decal(d)) == Ok::<DecalView, LoadErrorView>(d),
{
    lemma_decal_names();
    reveal_strlit("ffffff");
    reveal_strlit("");
    lemma_color_round_trip(d.color);
    let e = element_of_decal(d);
    let a = e.attributes;
    if d.color == seq![0xFFu8, 0xFFu8, 0xFFu8, 0xFFu8] {
        assert(color_of_text("ffffff"@)->Some_0 =~= d.color);
    }
    let got = decal_of(e)->Ok_0;
    assert(got.color =~= d.color);
    assert(got.texture =~= d.texture);
}

/// A filler rectangle comes back from its element.
pub proof fn lemma_filler_round_trip(f: Filler)
    ensures
        filler_of(element_of_filler(f)) == Ok::<Filler, LoadErrorView>(f),
{
    lemma_filler_names();
}

/// Where every reading succeeds, the outcome is all that was read.
pub proof fn lemma_collect_all_ok<T>(results: Seq<Result<T, LoadErrorView>>, values: Seq<T>)
    requires
        results.len() == values.len(),
        forall|i: int| 0 <= i < results.len() ==> #[trigger] results[i] == Ok::<T, LoadErrorView>(
            values[i],
        ),
    ensures
        collect(results) == Ok::<Seq<T>, LoadErrorView>(values),
    decreases results.len(),
{
    if results.len() > 0 {
        lemma_collect_all_ok(results.drop_last(), values.drop_last());
        assert(values.drop_last().push(values.last()) == values);
    } else {
        assert(values == Seq::<T>::empty());
    }
}

/// The waypoint that an element stands for. The element must be named
/// `node`; an absent coordinate is zero.
pub open spec fn node_of(e: ElementView) -> Result<(Float32, Float32), LoadErrorView> {
    let a = e.attributes;
    let error = first(kind_error(a, "x"@, Kind::Float), kind_error(a, "y"@, Kind::Float));
    if name_error(e, "node"@) is Some {
        Err(name_error(e, "node"@)->Some_0)
    } else if error is Some {
        Err(error->Some_0)
    } else {
        Ok((float_of(a, "x"@, Float32 { bits: 0 }), float_of(a, "y"@, Float32 { bits: 0 })))
    }
}

/// The element that stands for a waypoint.
pub open spec fn element_of_node(node: (Float32, Float32)) -> ElementView {
    leaf(
        "node"@,
        Map::<Seq<char>, ValueView>::empty().insert("x"@, ValueView::Float(node.0)).insert(
            "y"@,
            ValueView::Float(node.1),
        ),
    )
}

/// The names of the attributes that an entity knows. Every other attribute
/// of its element is kept as it is.
pub open spec fn entity_names() -> Set<Seq<char>> {
    set!["id"@, "x"@, "y"@, "width"@, "height"@, "originX"@, "originY"@]
}

/// The names of the attributes that an entity knows differ in shape.
pub proof fn lemma_entity_names()
    ensures
        shape("id"@) == (2nat, 'i', 'd'),
        shape("x"@) == (1nat, 'x', 'x'),
        shape("y"@) == (1nat, 'y', 'y'),
        shape("width"@) == (5nat, 'w', 'h'),
        shape("height"@) == (6nat, 'h', 't'),
        shape("originX"@) == (7nat, 'o', 'X'),
        shape("originY"@) == (7nat, 'o', 'Y'),
{
    reveal_strlit("id");
    reveal_strlit("x");
    reveal_strlit("y");
    reveal_strlit("width");
    reveal_strlit("height");
    reveal_strlit("originX");
    reveal_strlit("originY");
}

/// The first wrong kind among the attributes that an entity knows, in the
/// order in which they are read.
pub open spec fn entity_kind_error(a: Map<Seq<char>, ValueView>) -> Option<LoadErrorView> {
    first(
        kind_error(a, "id"@, Kind::Integer),
        first(
            kind_error(a, "x"@, Kind::Float),
            first(
                kind_error(a, "y"@, Kind::Float),
                first(
                    kind_error(a, "width"@, Kind::Integer),
                    first(
                        kind_error(a, "height"@, Kind::Integer),
                        first(
                            kind_error(a, "originX"@, Kind::Float),
                            kind_error(a, "originY"@, Kind::Float),
                        ),
                    ),
                ),
            ),
        ),
    )
}

/// The entity that an element stands for. The element's name is the
/// entity's. An absent id is zero, absent coordinates are zero, and an
/// absent width or height stays absent; one that is given as a
/// single-precision number is cut off toward zero, as every integer is. The
/// children of the element are the entity's waypoints, and the attributes
/// that an entity does not know are kept.
pub open spec fn entity_of(e: ElementView) -> Result<EntityView, LoadErrorView> {
    let a = e.attributes;
    let nodes = collect(e.children.map_values(|c: ElementView| node_of(c)));
    if entity_kind_error(a) is Some {
        Err(entity_kind_error(a)->Some_0)
    } else if nodes is Err {
        Err(nodes->Err_0)
    } else {
        Ok(
            EntityView {
                name: e.name,
                id: int_of(a, "id"@, 0),
                position: (
                    float_of(a, "x"@, Float32 { bits: 0 }),
                    float_of(a, "y"@, Float32 { bits: 0 }),
                ),
                width: optional_int_of(a, "width"@),
                height: optional_int_of(a, "height"@),
                origin: (
                    float_of(a, "originX"@, Float32 { bits: 0 }),
                    float_of(a, "originY"@, Float32 { bits: 0 }),
                ),
                nodes: nodes->Ok_0,
                values: a.remove_keys(entity_names()),
            },
        )
    }
}

/// The element that stands for an entity: the attributes that the entity
/// keeps, then those that it knows, with an absent width or height left out;
/// and a child for each waypoint.
pub open spec fn element_of_entity(en: EntityView) -> ElementView {
    let position = en.values.insert("x"@, ValueView::Float(en.position.0)).insert(
        "y"@,
        ValueView::Float(en.position.1),
    );
    let with_width = insert_if(
        position,
        en.width is Some,
        "width"@,
        ValueView::Integer(en.width->Some_0),
    );
    let with_height = insert_if(
        with_width,
        en.height is Some,
        "height"@,
        ValueView::Integer(en.height->Some_0),
    );
    ElementView {
        name: en.name,
        attributes: with_height.insert("originX"@, ValueView::Float(en.origin.0)).insert(
            "originY"@,
            ValueView::Float(en.origin.1),
        ).insert("id"@, ValueView::Integer(en.id)),
        children: en.nodes.map_values(|node: (Float32, Float32)| element_of_node(node)),
    }
}

/// Reads the waypoint that an element stands for.
pub fn read_node(value: Element) -> (r: Result<(Float32, Float32), LoadError>)
    ensures
        match node_of(value@) {
            Ok(node) => r is Ok && r->Ok_0 == node,
            Err(e) => r is Err && r->Err_0@ == e,
        },
{
    proof {
        lemma_entity_names();
    }
    if !str_eq(value.name.as_str(), "node") {
        return Err(LoadError::InvalidElementName(value.name, "node"));
    }
    let mut attrs = value.attributes;
    let x = remove_float(&mut attrs, "x", Float32::zero())?;
    let y = remove_float(&mut attrs, "y", Float32::zero())?;
    Ok((x, y))
}

/// Writes a waypoint as an element.
pub fn write_node(node: (Float32, Float32)) -> (r: Element)
    ensures
        r@ == element_of_node(node),
{
    let mut attributes = Attributes::new();
    put(&mut attributes, "x", Value::Float(node.0));
    put(&mut attributes, "y", Value::Float(node.1));
    leaf_element("node", attributes)
}

impl MapElement for Entity {
    open spec fn spec_read(e: ElementView) -> Result<EntityView, LoadErrorView> {
        entity_of(e)
    }

    open spec fn spec_write(v: EntityView) -> ElementView {
        element_of_entity(v)
    }

    fn read(value: Element) -> (r: Result<Entity, LoadError>) {
        proof {
            lemma_entity_names();
            crate::element::lemma_children_view(value);
        }
        let ghost a = value@.attributes;
        let mut attrs = value.attributes;
        let id = remove_int(&mut attrs, "id", 0)?;
        let x = remove_float(&mut attrs, "x", Float32::zero())?;
        let y = remove_float(&mut attrs, "y", Float32::zero())?;
        let width = remove_optional_int(&mut attrs, "width")?;
        let height = remove_optional_int(&mut attrs, "height")?;
        let origin_x = remove_float(&mut attrs, "originX", Float32::zero())?;
        let origin_y = remove_float(&mut attrs, "originY", Float32::zero())?;
        assert(attrs@ =~= a.remove_keys(entity_names()));
        let ghost results = value@.children.map_values(|c: ElementView| node_of(c));
        let mut nodes: Vec<(Float32, Float32)> = Vec::new();
        assert(results.take(0) =~= Seq::empty());
        for child in iter: value.children
            invariant
                iter.seq() == value.children@,
                value@.children == element_views(value.children@),
                entity_kind_error(value@.attributes) is None,
                results == value@.children.map_values(|c: ElementView| node_of(c)),
                collect(results.take(iter.index())) == Ok::<
                    Seq<(Float32, Float32)>,
                    LoadErrorView,
                >(nodes@),
        {
            let ghost i = iter.index();
            proof {
                assert(results.take(i + 1).drop_last() == results.take(i));
                assert(results.take(i + 1).last() == node_of(child@));
            }
            let node = match read_node(child) {
                Ok(node) => node,
                Err(e) => {
                    proof {
                        lemma_collect_error_stays(results, i + 1);
                    }
                    return Err(e);
                },
            };
            nodes.push(node);
        }
        assert(results.take(results.len() as int) == results);
        Ok(
            Entity {
                name: value.name,
                id,
                position: (x, y),
                width,
                height,
                origin: (origin_x, origin_y),
                nodes,
                values: attrs,
            },
        )
    }

    fn write(self) -> (r: Element) {
        let mut attributes = self.values;
        put(&mut attributes, "x", Value::Float(self.position.0));
        put(&mut attributes, "y", Value::Float(self.position.1));
        match self.width {
            Some(width) => {
                put(&mut attributes, "width", Value::Integer(width));
            },
            None => {},
        }
        match self.height {
            Some(height) => {
                put(&mut attributes, "height", Value::Integer(height));
            },
            None => {},
        }
        put(&mut attributes, "originX", Value::Float(self.origin.0));
        put(&mut attributes, "originY", Value::Float(self.origin.1));
        put(&mut attributes, "id", Value::Integer(self.id));
        let ghost target = self.nodes@.map_values(|node: (Float32, Float32)| element_of_node(node));
        let mut children: Vec<Element> = Vec::new();
        let mut i: usize = 0;
        assert(element_views(children@) =~= target.take(0));
        while i < self.nodes.len()
            invariant
                i <= self.nodes.len(),
                target == self.nodes@.map_values(|node: (Float32, Float32)| element_of_node(node)),
                element_views(children@) == target.take(i as int),
            decreases self.nodes.len() - i,
        {
            let ghost before = element_views(children@);
            let child = write_node(self.nodes[i]);
            children.push(child);
            assert(element_views(children@) == before.push(child@));
            i += 1;
        }
        assert(target.take(target.len() as int) == target);
        let r = Element { name: self.name, attributes, children };
        proof {
            crate::element::lemma_children_view(r);
        }
        r
    }
}

impl TryFrom<Element> for Entity {
    type Error = LoadError;

    fn try_from(value: Element) -> (r: Result<Entity, LoadError>)
        ensures
            match entity_of(value@) {
                Ok(entity) => r is Ok && r->Ok_0@ == entity,
                Err(e) => r is Err && r->Err_0@ == e,
            },
    {
        Entity::read(value)
    }
}

impl TryFromSpecImpl<Element> for Entity {
    open spec fn obeys_try_from_spec() -> bool {
        false
    }

    open spec fn try_from_spec(v: Element) -> Result<Entity, LoadError> {
        arbitrary()
    }
}

impl From<Entity> for Element {
    fn from(value: Entity) -> (r: Element)
        ensures
            r@ == element_of_entity(value@),
    {
        value.write()
    }
}

impl FromSpecImpl<Entity> for Element {
    open spec fn obeys_from_spec() -> bool {
        false
    }

    open spec fn from_spec(v: Entity) -> Element {
        arbitrary()
    }
}

/// A waypoint comes back from its element.
pub proof fn lemma_node_round_trip(node: (Float32, Float32))
    ensures
        node_of(element_of_node(node)) == Ok::<(Float32, Float32), LoadErrorView>(node),
{
    lemma_entity_names();
}

/// An entity that keeps no attribute under a name that it knows comes back
/// from its element.
pub proof fn lemma_entity_round_trip(en: EntityView)
    requires
        en.values.dom().disjoint(entity_names()),
    ensures
        entity_of(element_of_entity(en)) == Ok::<EntityView, LoadErrorView>(en),
{
    lemma_entity_names();
    let e = element_of_entity(en);
    let results = e.children.map_values(|c: ElementView| node_of(c));
    assert forall|i: int| 0 <= i < results.len() implies #[trigger] results[i] == Ok::<
        (Float32, Float32),
        LoadErrorView,
    >(en.nodes[i]) by {
        lemma_node_round_trip(en.nodes[i]);
    }
    lemma_collect_all_ok(results, en.nodes);
    let got = entity_of(e)->Ok_0;
    assert(got.values =~= en.values);
}

/// The names of the attributes that hold the data of a level.
pub open spec fn level_data_names() -> Set<Seq<char>> {
    set![
        "musicProgress"@,
        "ambienceProgress"@,
        "x"@,
        "y"@,
        "width"@,
        "height"@,
        "musicLayer1"@,
        "musicLayer2"@,
        "musicLayer3"@,
        "musicLayer4"@,
        "underwater"@,
        "space"@,
        "disableDownTransition"@,
        "cameraOffsetX"@,
        "cameraOffsetY"@,
        "windPattern"@,
        "alt_music"@,
        "ambience"@,
        "delayAltMusicFade"@,
        "music"@,
        "c"@,
        "dark"@,
        "enforceDashNumber"@,
        "whisper"@,
    ]
}

/// The names of the attributes that a level knows differ in shape.
pub proof fn lemma_level_names()
    ensures
        shape("musicProgress"@) == (13nat, 'm', 's'),
        shape("ambienceProgress"@) == (16nat, 'a', 's'),
        shape("x"@) == (1nat, 'x', 'x'),
        shape("y"@) == (1nat, 'y', 'y'),
        shape("width"@) == (5nat, 'w', 'h'),
        shape("height"@) == (6nat, 'h', 't'),
        shape("musicLayer1"@) == (11nat, 'm', '1'),
        shape("musicLayer2"@) == (11nat, 'm', '2'),
        shape("musicLayer3"@) == (11nat, 'm', '3'),
        shape("musicLayer4"@) == (11nat, 'm', '4'),
        shape("underwater"@) == (10nat, 'u', 'r'),
        shape("space"@) == (5nat, 's', 'e'),
        shape("disableDownTransition"@) == (21nat, 'd', 'n'),
        shape("cameraOffsetX"@) == (13nat, 'c', 'X'),
        shape("cameraOffsetY"@) == (13nat, 'c', 'Y'),
        shape("windPattern"@) == (11nat, 'w', 'n'),
        shape("alt_music"@) == (9nat, 'a', 'c'),
        shape("ambience"@) == (8nat, 'a', 'e'),
        shape("delayAltMusicFade"@) == (17nat, 'd', 'e'),
        shape("music"@) == (5nat, 'm', 'c'),
        shape("c"@) == (1nat, 'c', 'c'),
        shape("dark"@) == (4nat, 'd', 'k'),
        shape("enforceDashNumber"@) == (17nat, 'e', 'r'),
        shape("whisper"@) == (7nat, 'w', 'r'),
        shape("name"@) == (4nat, 'n', 'e'),
{
    reveal_strlit("musicProgress");
    reveal_strlit("ambienceProgress");
    reveal_strlit("x");
    reveal_strlit("y");
    reveal_strlit("width");
    reveal_strlit("height");
    reveal_strlit("musicLayer1");
    reveal_strlit("musicLayer2");
    reveal_strlit("musicLayer3");
    reveal_strlit("musicLayer4");
    reveal_strlit("underwater");
    reveal_strlit("space");
    reveal_strlit("disableDownTransition");
    reveal_strlit("cameraOffsetX");
    reveal_strlit("cameraOffsetY");
    reveal_strlit("windPattern");
    reveal_strlit("alt_music");
    reveal_strlit("ambience");
    reveal_strlit("delayAltMusicFade");
    reveal_strlit("music");
    reveal_strlit("c");
    reveal_strlit("dark");
    reveal_strlit("enforceDashNumber");
    reveal_strlit("whisper");
    reveal_strlit("name");
}

/// The error of reading the attribute `key` as an integer that is written as
/// text: the attribute must be a text, and a text that is not empty must
/// denote a 32-bit integer in decimal.
pub open spec fn progress_error(a: Map<Seq<char>, ValueView>, key: Seq<char>) -> Option<LoadErrorView> {
    let text = text_of(a, key, Seq::empty());
    if kind_error(a, key, Kind::Text) is Some {
        kind_error(a, key, Kind::Text)
    } else if text.len() > 0 && spec_parse_i32(text) is None {
        Some(LoadErrorView::InvalidFieldData(key, text))
    } else {
        None
    }
}

/// The integer that the attribute `key` holds as text. An absent attribute
/// and an empty text hold none.
pub open spec fn progress_of(a: Map<Seq<char>, ValueView>, key: Seq<char>) -> Option<i32> {
    let text = text_of(a, key, Seq::empty());
    if text.len() == 0 {
        None
    } else {
        spec_parse_i32(text)
    }
}

/// The text that holds an integer which may be absent: its decimal digits,
/// or nothing.
pub open spec fn progress_text(progress: Option<i32>) -> Seq<char> {
    match progress {
        Some(v) => decimal_text(v as int),
        None => Seq::empty(),
    }
}

/// The first error among the attributes that hold the data of a level, in
/// the order in which they are read.
pub open spec fn level_data_error(a: Map<Seq<char>, ValueView>) -> Option<LoadErrorView> {
    first(
        progress_error(a, "musicProgress"@),
        first(
            progress_error(a, "ambienceProgress"@),
            first(
                kind_error(a, "x"@, Kind::Integer),
                first(
                    kind_error(a, "y"@, Kind::Integer),
                    first(
                        kind_error(a, "width"@, Kind::Integer),
                        first(
                            kind_error(a, "height"@, Kind::Integer),
                            first(
                                kind_error(a, "musicLayer1"@, Kind::Boolean),
                                first(
                                    kind_error(a, "musicLayer2"@, Kind::Boolean),
                                    first(
                                        kind_error(a, "musicLayer3"@, Kind::Boolean),
                                        first(
                                            kind_error(a, "musicLayer4"@, Kind::Boolean),
                                            first(
                                                kind_error(a, "underwater"@, Kind::Boolean),
                                                first(
                                                    kind_error(a, "space"@, Kind::Boolean),
                                                    first(
                                                        kind_error(a, "disableDownTransition"@, Kind::Boolean),
                                                        first(
                                                            kind_error(a, "cameraOffsetX"@, Kind::Integer),
                                                            first(
                                                                kind_error(a, "cameraOffsetY"@, Kind::Integer),
                                                                first(
                                                                    kind_error(a, "windPattern"@, Kind::Text),
                                                                    first(
                                                                        kind_error(a, "alt_music"@, Kind::Text),
                                                                        first(
                                                                            kind_error(a, "ambience"@, Kind::Text),
                                                                            first(
                                                                                kind_error(a, "delayAltMusicFade"@, Kind::Boolean),
                                                                                first(
                                                                                    kind_error(a, "music"@, Kind::Text),
                                                                                    first(
                                                                                        kind_error(a, "c"@, Kind::Integer),
                                                                                        first(
                                                                                            kind_error(a, "dark"@, Kind::Boolean),
                                                                                            first(
                                                                                                kind_error(a, "enforceDashNumber"@, Kind::Integer),
                                                                                                kind_error(a, "whisper"@, Kind::Boolean),
                                                                                            ),
                                                                                        ),
                                                                                    ),
                                                                                ),
                                                                            ),
                                                                        ),
                                                                    ),
                                                                ),
                                                            ),
                                                        ),
                                                    ),
                                                ),
                                            ),
                                        ),
                                    ),
                                ),
                            ),
                        ),
                    ),
                ),
            ),
        ),
    )
}

/// The data of a level that attributes hold. An absent position is the
/// origin, an absent width or height is 8, an absent wind pattern is `None`,
/// and whatever else is absent is false, zero, empty or not there.
pub open spec fn level_data_of(a: Map<Seq<char>, ValueView>) -> LevelDataView {
    LevelDataView {
        position: (int_of(a, "x"@, 0), int_of(a, "y"@, 0)),
        size: (int_of(a, "width"@, 8), int_of(a, "height"@, 8)),
        music_layers: seq![
            bool_of(a, "musicLayer1"@, false),
            bool_of(a, "musicLayer2"@, false),
            bool_of(a, "musicLayer3"@, false),
            bool_of(a, "musicLayer4"@, false),
        ],
        underwater: bool_of(a, "underwater"@, false),
        space: bool_of(a, "space"@, false),
        disable_down_transition: bool_of(a, "disableDownTransition"@, false),
        music_progress: progress_of(a, "musicProgress"@),
        camera_offset: (int_of(a, "cameraOffsetX"@, 0), int_of(a, "cameraOffsetY"@, 0)),
        wind_pattern: text_of(a, "windPattern"@, "None"@),
        ambience_progress: progress_of(a, "ambienceProgress"@),
        alt_music: text_of(a, "alt_music"@, ""@),
        ambience: text_of(a, "ambience"@, ""@),
        delay_alt_music_fade: bool_of(a, "delayAltMusicFade"@, false),
        music: text_of(a, "music"@, ""@),
        color: int_of(a, "c"@, 0),
        dark: bool_of(a, "dark"@, false),
        enforce_dash_number: optional_int_of(a, "enforceDashNumber"@),
        whisper: bool_of(a, "whisper"@, false),
    }
}

/// The attributes `base` with the data of a level written over them. A dash
/// number that is absent is left out; the integers that are held as text are
/// written as empty text where they are absent.
pub open spec fn level_data_attrs(d: LevelDataView, base: Map<Seq<char>, ValueView>) -> Map<
    Seq<char>,
    ValueView,
> {
    let a1 = base.insert("x"@, ValueView::Integer(d.position.0));
    let a2 = a1.insert("y"@, ValueView::Integer(d.position.1));
    let a3 = a2.insert("width"@, ValueView::Integer(d.size.0));
    let a4 = a3.insert("height"@, ValueView::Integer(d.size.1));
    let a5 = a4.insert("musicLayer1"@, ValueView::Boolean(d.music_layers[0]));
    let a6 = a5.insert("musicLayer2"@, ValueView::Boolean(d.music_layers[1]));
    let a7 = a6.insert("musicLayer3"@, ValueView::Boolean(d.music_layers[2]));
    let a8 = a7.insert("musicLayer4"@, ValueView::Boolean(d.music_layers[3]));
    let a9 = a8.insert("underwater"@, ValueView::Boolean(d.underwater));
    let a10 = a9.insert("space"@, ValueView::Boolean(d.space));
    let a11 = a10.insert("disableDownTransition"@, ValueView::Boolean(d.disable_down_transition));
    let a12 = a11.insert("musicProgress"@, ValueView::String(progress_text(d.music_progress)));
    let a13 = a12.insert("cameraOffsetX"@, ValueView::Integer(d.camera_offset.0));
    let a14 = a13.insert("cameraOffsetY"@, ValueView::Integer(d.camera_offset.1));
    let a15 = a14.insert("windPattern"@, ValueView::String(d.wind_pattern));
    let a16 = a15.insert("ambienceProgress"@, ValueView::String(progress_text(d.ambience_progress)));
    let a17 = a16.insert("alt_music"@, ValueView::String(d.alt_music));
    let a18 = a17.insert("ambience"@, ValueView::String(d.ambience));
    let a19 = a18.insert("delayAltMusicFade"@, ValueView::Boolean(d.delay_alt_music_fade));
    let a20 = a19.insert("music"@, ValueView::String(d.music));
    let a21 = a20.insert("c"@, ValueView::Integer(d.color));
    let a22 = a21.insert("dark"@, ValueView::Boolean(d.dark));
    let a23 = insert_if(a22, d.enforce_dash_number is Some, "enforceDashNumber"@, ValueView::Integer(d.enforce_dash_number->Some_0));
    let a24 = a23.insert("whisper"@, ValueView::Boolean(d.whisper));
    a24
}

/// Reads the attribute `key` as a text.
pub fn get_text(attrs: &Attributes, key: &'static str, default: &str) -> (r: Result<String, LoadError>)
    ensures
        match kind_error(attrs@, key@, Kind::Text) {
            Some(e) => r is Err && r->Err_0@ == e,
            None => r is Ok && r->Ok_0@ == text_of(attrs@, key@, default@),
        },
{
    match attrs.get(key) {
        Some(Value::String(s)) => Ok(s.clone()),
        Some(Value::RleString(s)) => Ok(s.clone()),
        Some(other) => Err(LoadError::InvalidFieldType(key, other.clone())),
        None => Ok(default.to_owned()),
    }
}

/// Reads the attribute `key` as an integer.
pub fn get_int(attrs: &Attributes, key: &'static str, default: i32) -> (r: Result<i32, LoadError>)
    ensures
        match kind_error(attrs@, key@, Kind::Integer) {
            Some(e) => r is Err && r->Err_0@ == e,
            None => r is Ok && r->Ok_0 == int_of(attrs@, key@, default),
        },
{
    match attrs.get(key) {
        Some(Value::Integer(i)) => Ok(*i),
        Some(Value::Float(x)) => Ok(x.to_i32()),
        Some(other) => Err(LoadError::InvalidFieldType(key, other.clone())),
        None => Ok(default),
    }
}

/// Reads the attribute `key` as an integer that may be absent.
pub fn get_optional_int(attrs: &Attributes, key: &'static str) -> (r: Result<Option<i32>, LoadError>)
    ensures
        match kind_error(attrs@, key@, Kind::Integer) {
            Some(e) => r is Err && r->Err_0@ == e,
            None => r is Ok && r->Ok_0 == optional_int_of(attrs@, key@),
        },
{
    match attrs.get(key) {
        Some(Value::Integer(i)) => Ok(Some(*i)),
        Some(Value::Float(x)) => Ok(Some(x.to_i32())),
        Some(other) => Err(LoadError::InvalidFieldType(key, other.clone())),
        None => Ok(None),
    }
}

/// Reads the attribute `key` as a truth value.
pub fn get_bool(attrs: &Attributes, key: &'static str, default: bool) -> (r: Result<bool, LoadError>)
    ensures
        match kind_error(attrs@, key@, Kind::Boolean) {
            Some(e) => r is Err && r->Err_0@ == e,
            None => r is Ok && r->Ok_0 == bool_of(attrs@, key@, default),
        },
{
    match attrs.get(key) {
        Some(Value::Boolean(b)) => Ok(*b),
        Some(other) => Err(LoadError::InvalidFieldType(key, other.clone())),
        None => Ok(default),
    }
}

/// Reads the attribute `key` as an integer that is written as text.
pub fn get_progress(attrs: &Attributes, key: &'static str) -> (r: Result<Option<i32>, LoadError>)
    ensures
        match progress_error(attrs@, key@) {
            Some(e) => r is Err && r->Err_0@ == e,
            None => r is Ok && r->Ok_0 == progress_of(attrs@, key@),
        },
{
    proof {
        reveal_strlit("");
    }
    let text = get_text(attrs, key, "")?;
    let chars = to_chars(text.as_str());
    if chars.len() == 0 {
        return Ok(None);
    }
    match parse_i32(chars.as_slice()) {
        Some(v) => Ok(Some(v)),
        None => Err(LoadError::InvalidFieldData(key, text)),
    }
}

/// Writes an integer which may be absent as text.
pub fn format_progress(progress: Option<i32>) -> (r: String)
    ensures
        r@ == progress_text(progress),
{
    match progress {
        Some(v) => format_i32(v),
        None => String::new(),
    }
}

impl LevelData {
    /// Reads the data of a level from the attributes of its element.
    #[verifier::rlimit(30)]
    pub fn load_from(attributes: &Attributes) -> (r: Result<LevelData, LoadError>)
        ensures
            match level_data_error(attributes@) {
                Some(e) => r is Err && r->Err_0@ == e,
                None => r is Ok && r->Ok_0@ == level_data_of(attributes@),
            },
    {
        proof {
            reveal_strlit("");
        }
        let music_progress = get_progress(attributes, "musicProgress")?;
        let ambience_progress = get_progress(attributes, "ambienceProgress")?;
        let position_0 = get_int(attributes, "x", 0)?;
        let position_1 = get_int(attributes, "y", 0)?;
        let size_0 = get_int(attributes, "width", 8)?;
        let size_1 = get_int(attributes, "height", 8)?;
        let music_layers_0 = get_bool(attributes, "musicLayer1", false)?;
        let music_layers_1 = get_bool(attributes, "musicLayer2", false)?;
        let music_layers_2 = get_bool(attributes, "musicLayer3", false)?;
        let music_layers_3 = get_bool(attributes, "musicLayer4", false)?;
        let underwater = get_bool(attributes, "underwater", false)?;
        let space = get_bool(attributes, "space", false)?;
        let disable_down_transition = get_bool(attributes, "disableDownTransition", false)?;
        let camera_offset_0 = get_int(attributes, "cameraOffsetX", 0)?;
        let camera_offset_1 = get_int(attributes, "cameraOffsetY", 0)?;
        let wind_pattern = get_text(attributes, "windPattern", "None")?;
        let alt_music = get_text(attributes, "alt_music", "")?;
        let ambience = get_text(attributes, "ambience", "")?;
        let delay_alt_music_fade = get_bool(attributes, "delayAltMusicFade", false)?;
        let music = get_text(attributes, "music", "")?;
        let color = get_int(attributes, "c", 0)?;
        let dark = get_bool(attributes, "dark", false)?;
        let enforce_dash_number = get_optional_int(attributes, "enforceDashNumber")?;
        let whisper = get_bool(attributes, "whisper", false)?;
        let data = LevelData {
            position: (position_0, position_1),
            size: (size_0, size_1),
            music_layers: [music_layers_0, music_layers_1, music_layers_2, music_layers_3],
            underwater,
            space,
            disable_down_transition,
            music_progress,
            camera_offset: (camera_offset_0, camera_offset_1),
            wind_pattern,
            ambience_progress,
            alt_music,
            ambience,
            delay_alt_music_fade,
            music,
            color,
            dark,
            enforce_dash_number,
            whisper,
        };
        assert(data@.music_layers =~= level_data_of(attributes@).music_layers);
        Ok(data)
    }

    /// Takes the attributes that hold the data of a level out.
    #[verifier::rlimit(30)]
    pub fn strip(attrs: &mut Attributes)
        ensures
            final(attrs)@ == old(attrs)@.remove_keys(level_data_names()),
    {
        discard(attrs, "musicProgress");
        discard(attrs, "ambienceProgress");
        discard(attrs, "x");
        discard(attrs, "y");
        discard(attrs, "width");
        discard(attrs, "height");
        discard(attrs, "musicLayer1");
        discard(attrs, "musicLayer2");
        discard(attrs, "musicLayer3");
        discard(attrs, "musicLayer4");
        discard(attrs, "underwater");
        discard(attrs, "space");
        discard(attrs, "disableDownTransition");
        discard(attrs, "cameraOffsetX");
        discard(attrs, "cameraOffsetY");
        discard(attrs, "windPattern");
        discard(attrs, "alt_music");
        discard(attrs, "ambience");
        discard(attrs, "delayAltMusicFade");
        discard(attrs, "music");
        discard(attrs, "c");
        discard(attrs, "dark");
        discard(attrs, "enforceDashNumber");
        discard(attrs, "whisper");
        assert(attrs@ =~= old(attrs)@.remove_keys(level_data_names()));
    }

    /// Writes the data of a level over the attributes of its element.
    #[verifier::rlimit(30)]
    pub fn store_to(self, attrs: &mut Attributes)
        ensures
            final(attrs)@ == level_data_attrs(self@, old(attrs)@),
    {
        put(attrs, "x", Value::Integer(self.position.0));
        put(attrs, "y", Value::Integer(self.position.1));
        put(attrs, "width", Value::Integer(self.size.0));
        put(attrs, "height", Value::Integer(self.size.1));
        put(attrs, "musicLayer1", Value::Boolean(self.music_layers[0]));
        put(attrs, "musicLayer2", Value::Boolean(self.music_layers[1]));
        put(attrs, "musicLayer3", Value::Boolean(self.music_layers[2]));
        put(attrs, "musicLayer4", Value::Boolean(self.music_layers[3]));
        put(attrs, "underwater", Value::Boolean(self.underwater));
        put(attrs, "space", Value::Boolean(self.space));
        put(attrs, "disableDownTransition", Value::Boolean(self.disable_down_transition));
        put(attrs, "musicProgress", Value::String(format_progress(self.music_progress)));
        put(attrs, "cameraOffsetX", Value::Integer(self.camera_offset.0));
        put(attrs, "cameraOffsetY", Value::Integer(self.camera_offset.1));
        put(attrs, "windPattern", Value::String(self.wind_pattern));
        put(attrs, "ambienceProgress", Value::String(format_progress(self.ambience_progress)));
        put(attrs, "alt_music", Value::String(self.alt_music));
        put(attrs, "ambience", Value::String(self.ambience));
        put(attrs, "delayAltMusicFade", Value::Boolean(self.delay_alt_music_fade));
        put(attrs, "music", Value::String(self.music));
        put(attrs, "c", Value::Integer(self.color));
        put(attrs, "dark", Value::Boolean(self.dark));
        match self.enforce_dash_number {
            Some(dashes) => {
                put(attrs, "enforceDashNumber", Value::Integer(dashes));
            },
            None => {},
        }
        put(attrs, "whisper", Value::Boolean(self.whisper));
    }
}


/// The names of the attributes that a level knows: those that hold its data,
/// and its name. Every other attribute of its element is kept as it is.
pub open spec fn level_names() -> Set<Seq<char>> {
    level_data_names().insert("name"@)
}

/// What the children of a level's element hold.
pub ghost struct LevelParts {
    pub entities: Seq<EntityView>,
    pub triggers: Seq<EntityView>,
    pub bg_decals: Seq<DecalView>,
    pub fg_decals: Seq<DecalView>,
    pub bg: Grid<char>,
    pub bg_tiles: Grid<i32>,
    pub fg_tiles: Grid<i32>,
    pub obj_tiles: Grid<i32>,
    pub solids: Grid<char>,
    pub extra_children: Seq<ElementView>,
}

/// The parts of a level whose element has no children: nothing but empty
/// tilemaps of the level's shape.
pub open spec fn no_parts(width: nat, height: nat) -> LevelParts {
    LevelParts {
        entities: Seq::empty(),
        triggers: Seq::empty(),
        bg_decals: Seq::empty(),
        fg_decals: Seq::empty(),
        bg: Grid::filled(width, height, '0'),
        bg_tiles: Grid::filled(width, height, -1i32),
        fg_tiles: Grid::filled(width, height, -1i32),
        obj_tiles: Grid::filled(width, height, -1i32),
        solids: Grid::filled(width, height, '0'),
        extra_children: Seq::empty(),
    }
}

/// The text of a tilemap's element: its attribute `innerText`, or the empty
/// text where that is absent.
pub open spec fn inner_text(child: ElementView) -> Seq<char> {
    text_of(child.attributes, "innerText"@, Seq::empty())
}

/// The error of a tilemap's element: its text is of a wrong kind.
pub open spec fn inner_text_error(child: ElementView) -> Option<LoadErrorView> {
    kind_error(child.attributes, "innerText"@, Kind::Text)
}

/// What one more child makes of the parts of a level. A child that is named
/// as one of the parts replaces that part; any other child is kept as it is.
pub open spec fn with_child(parts: LevelParts, child: ElementView, width: nat, height: nat) -> Result<
    LevelParts,
    LoadErrorView,
> {
    let entities = read_each::<Entity>(child.children);
    let decals = read_each::<Decal>(child.children);
    let chars = grid_from_rows(lines(inner_text(child)), width, height, '0');
    let ids = grid_from_rows(id_rows(inner_text(child)), width, height, -1i32);
    if child.name == "entities"@ {
        match entities {
            Ok(entities) => Ok(LevelParts { entities, ..parts }),
            Err(e) => Err(e),
        }
    } else if child.name == "triggers"@ {
        match entities {
            Ok(triggers) => Ok(LevelParts { triggers, ..parts }),
            Err(e) => Err(e),
        }
    } else if child.name == "bgdecals"@ {
        match decals {
            Ok(bg_decals) => Ok(LevelParts { bg_decals, ..parts }),
            Err(e) => Err(e),
        }
    } else if child.name == "fgdecals"@ {
        match decals {
            Ok(fg_decals) => Ok(LevelParts { fg_decals, ..parts }),
            Err(e) => Err(e),
        }
    } else if child.name == "bg"@ {
        match inner_text_error(child) {
            Some(e) => Err(e),
            None => Ok(LevelParts { bg: chars, ..parts }),
        }
    } else if child.name == "bgtiles"@ {
        match inner_text_error(child) {
            Some(e) => Err(e),
            None => Ok(LevelParts { bg_tiles: ids, ..parts }),
        }
    } else if child.name == "fgtiles"@ {
        match inner_text_error(child) {
            Some(e) => Err(e),
            None => Ok(LevelParts { fg_tiles: ids, ..parts }),
        }
    } else if child.name == "solids"@ {
        match inner_text_error(child) {
            Some(e) => Err(e),
            None => Ok(LevelParts { solids: chars, ..parts }),
        }
    } else if child.name == "objtiles"@ {
        match inner_text_error(child) {
            Some(e) => Err(e),
            None => Ok(LevelParts { obj_tiles: ids, ..parts }),
        }
    } else {
        Ok(LevelParts { extra_children: parts.extra_children.push(child), ..parts })
    }
}

/// What the children of a level's element hold, taken in order, or the first
/// error among them.
pub open spec fn level_parts(children: Seq<ElementView>, width: nat, height: nat) -> Result<
    LevelParts,
    LoadErrorView,
>
    decreases children.len(),
{
    if children.len() == 0 {
        Ok(no_parts(width, height))
    } else {
        match level_parts(children.drop_last(), width, height) {
            Err(e) => Err(e),
            Ok(parts) => with_child(parts, children.last(), width, height),
        }
    }
}

/// Once a child has failed, the children behind it do not change the outcome.
pub proof fn lemma_level_parts_error_stays(
    children: Seq<ElementView>,
    width: nat,
    height: nat,
    n: int,
)
    requires
        0 <= n <= children.len(),
        level_parts(children.take(n), width, height) is Err,
    ensures
        level_parts(children, width, height) == level_parts(children.take(n), width, height),
    decreases children.len() - n,
{
    if n == children.len() {
        assert(children.take(n) == children);
    } else {
        assert(children.take(n + 1).drop_last() == children.take(n));
        lemma_level_parts_error_stays(children, width, height, n + 1);
    }
}

/// How many tiles of eight pixels fit a length in pixels.
pub open spec fn tiles(pixels: i32) -> nat {
    (pixels / 8) as nat
}

/// The level that an element stands for. The element must be named `level`.
/// Its attributes hold the data of the level and its name, `<unnamed>` where
/// there is none; the width and the height must not be negative. The
/// tilemaps have a tile for every eight pixels of the level's size.
pub open spec fn level_of(e: ElementView) -> Result<LevelView, LoadErrorView> {
    let a = e.attributes;
    let data = level_data_of(a);
    let width = tiles(data.size.0);
    let height = tiles(data.size.1);
    let parts = level_parts(e.children, width, height);
    if name_error(e, "level"@) is Some {
        Err(name_error(e, "level"@)->Some_0)
    } else if level_data_error(a) is Some {
        Err(level_data_error(a)->Some_0)
    } else if data.size.0 < 0 {
        Err(LoadErrorView::InvalidFieldData("width"@, "width cannot be negative"@))
    } else if data.size.1 < 0 {
        Err(LoadErrorView::InvalidFieldData("height"@, "height cannot be negative"@))
    } else if kind_error(a, "name"@, Kind::Text) is Some {
        Err(kind_error(a, "name"@, Kind::Text)->Some_0)
    } else if width * height > usize::MAX {
        Err(
            LoadErrorView::InvalidFieldData(
                "bg"@,
                "tilemap size is too large for this machine to store in memory"@,
            ),
        )
    } else if parts is Err {
        Err(parts->Err_0)
    } else {
        Ok(
            LevelView {
                name: text_of(a, "name"@, "<unnamed>"@),
                data,
                entities: parts->Ok_0.entities,
                triggers: parts->Ok_0.triggers,
                bg_decals: parts->Ok_0.bg_decals,
                fg_decals: parts->Ok_0.fg_decals,
                bg: parts->Ok_0.bg,
                bg_tiles: parts->Ok_0.bg_tiles,
                fg_tiles: parts->Ok_0.fg_tiles,
                obj_tiles: parts->Ok_0.obj_tiles,
                solids: parts->Ok_0.solids,
                extra_data: a.remove_keys(level_names()),
                extra_children: parts->Ok_0.extra_children,
            },
        )
    }
}

/// An element with the given name and children and no attributes.
pub open spec fn group(name: Seq<char>, children: Seq<ElementView>) -> ElementView {
    ElementView { name, attributes: Map::empty(), children }
}

/// An element with the given name whose only attribute is its text.
pub open spec fn text_leaf(name: Seq<char>, text: ValueView) -> ElementView {
    leaf(name, Map::<Seq<char>, ValueView>::empty().insert("innerText"@, text))
}

/// The children that stand for the parts of a level, in the order in which
/// they are written.
pub open spec fn level_children(l: LevelView) -> Seq<ElementView> {
    seq![
        group("entities"@, write_each::<Entity>(l.entities)),
        group("triggers"@, write_each::<Entity>(l.triggers)),
        group("bgdecals"@, write_each::<Decal>(l.bg_decals)),
        group("fgdecals"@, write_each::<Decal>(l.fg_decals)),
        text_leaf("bg"@, ValueView::RleString(char_grid_text(l.bg))),
        text_leaf("bgtiles"@, ValueView::String(id_grid_text(l.bg_tiles))),
        text_leaf("fgtiles"@, ValueView::String(id_grid_text(l.fg_tiles))),
        text_leaf("objtiles"@, ValueView::String(id_grid_text(l.obj_tiles))),
        text_leaf("solids"@, ValueView::RleString(char_grid_text(l.solids))),
    ]
}

/// The element that stands for a level: the attributes that the level keeps
/// with its data and its name written over them, and behind the children
/// that the level keeps a child for each of its parts. The tilemaps of
/// characters are marked for run-length encoding; those of ids are not.
pub open spec fn element_of_level(l: LevelView) -> ElementView {
    ElementView {
        name: "level"@,
        attributes: level_data_attrs(l.data, l.extra_data).insert(
            "name"@,
            ValueView::String(l.name),
        ),
        children: l.extra_children + level_children(l),
    }
}

/// An element with the given name and children and no attributes.
pub fn group_element(name: &str, children: Vec<Element>) -> (r: Element)
    ensures
        r@ == group(name@, element_views(children@)),
{
    let r = Element { name: name.to_owned(), attributes: Attributes::new(), children };
    proof {
        crate::element::lemma_children_view(r);
    }
    r
}

/// An element with the given name whose only attribute is its text.
pub fn text_leaf_element(name: &str, text: Value) -> (r: Element)
    ensures
        r@ == text_leaf(name@, text@),
{
    let mut attributes = Attributes::new();
    put(&mut attributes, "innerText", text);
    leaf_element(name, attributes)
}

/// Takes the text out of a tilemap's element.
fn take_inner_text(child: Element) -> (r: Result<String, LoadError>)
    ensures
        match inner_text_error(child@) {
            Some(e) => r is Err && r->Err_0@ == e,
            None => r is Ok && r->Ok_0@ == inner_text(child@),
        },
{
    proof {
        reveal_strlit("");
    }
    let mut attrs = child.attributes;
    remove_text(&mut attrs, "innerText", "")
}

impl MapElement for Level {
    open spec fn spec_read(e: ElementView) -> Result<LevelView, LoadErrorView> {
        level_of(e)
    }

    open spec fn spec_write(v: LevelView) -> ElementView {
        element_of_level(v)
    }

    #[verifier::rlimit(30)]
    fn read(value: Element) -> (r: Result<Level, LoadError>) {
        proof {
            lemma_level_names();
            crate::element::lemma_children_view(value);
        }
        if !str_eq(value.name.as_str(), "level") {
            return Err(LoadError::InvalidElementName(value.name, "level"));
        }
        let ghost a = value@.attributes;
        let data = LevelData::load_from(&value.attributes)?;
        let mut attrs = value.attributes;
        LevelData::strip(&mut attrs);
        if data.size.0 < 0 {
            return Err(LoadError::InvalidFieldData("width", "width cannot be negative".to_owned()));
        }
        if data.size.1 < 0 {
            return Err(
                LoadError::InvalidFieldData("height", "height cannot be negative".to_owned()),
            );
        }
        let tile_width = (data.size.0 / 8) as usize;
        let tile_height = (data.size.1 / 8) as usize;
        let name = remove_text(&mut attrs, "name", "<unnamed>")?;
        assert(attrs@ =~= a.remove_keys(level_names()));
        let (mut bg, mut bg_tiles) = match (
            Tilemap::<char>::new(tile_width, tile_height),
            Tilemap::<i32>::new(tile_width, tile_height),
        ) {
            (Some(chars), Some(ids)) => (chars, ids),
            _ => {
                return Err(
                    LoadError::InvalidFieldData(
                        "bg",
                        "tilemap size is too large for this machine to store in memory".to_owned(),
                    ),
                );
            },
        };
        let mut solids = bg.clone();
        let mut fg_tiles = bg_tiles.clone();
        let mut obj_tiles = bg_tiles.clone();
        let mut entities: Vec<Entity> = Vec::new();
        let mut triggers: Vec<Entity> = Vec::new();
        let mut bg_decals: Vec<Decal> = Vec::new();
        let mut fg_decals: Vec<Decal> = Vec::new();
        let mut extra_children: Vec<Element> = Vec::new();
        let ghost children = value@.children;
        let ghost width = tile_width as nat;
        let ghost height = tile_height as nat;
        proof {
            assert(children.take(0) =~= Seq::empty());
            assert(views(entities@) =~= Seq::empty());
            assert(views(triggers@) =~= Seq::empty());
            assert(views(bg_decals@) =~= Seq::empty());
            assert(views(fg_decals@) =~= Seq::empty());
            assert(element_views(extra_children@) =~= Seq::empty());
        }
        for child in iter: value.children
            invariant
                iter.seq() == value.children@,
                children == element_views(value.children@),
                width * height <= usize::MAX,
                width == tile_width,
                height == tile_height,
                level_parts(children.take(iter.index()), width, height) == Ok::<
                    LevelParts,
                    LoadErrorView,
                >(
                    LevelParts {
                        entities: views(entities@),
                        triggers: views(triggers@),
                        bg_decals: views(bg_decals@),
                        fg_decals: views(fg_decals@),
                        bg: bg@,
                        bg_tiles: bg_tiles@,
                        fg_tiles: fg_tiles@,
                        obj_tiles: obj_tiles@,
                        solids: solids@,
                        extra_children: element_views(extra_children@),
                    },
                ),
                level_parts(children, width, height) is Err ==> level_of(value@) == Err::<
                    LevelView,
                    LoadErrorView,
                >(level_parts(children, width, height)->Err_0),
        {
            let ghost i = iter.index();
            proof {
                assert(children.take(i + 1).drop_last() == children.take(i));
                assert(children.take(i + 1).last() == child@);
                crate::element::lemma_children_view(child);
                if level_parts(children.take(i + 1), width, height) is Err {
                    lemma_level_parts_error_stays(children, width, height, i + 1);
                }
            }
            if str_eq(child.name.as_str(), "entities") {
                entities = read_all::<Entity>(child.children)?;
            } else if str_eq(child.name.as_str(), "triggers") {
                triggers = read_all::<Entity>(child.children)?;
            } else if str_eq(child.name.as_str(), "bgdecals") {
                bg_decals = read_all::<Decal>(child.children)?;
            } else if str_eq(child.name.as_str(), "fgdecals") {
                fg_decals = read_all::<Decal>(child.children)?;
            } else if str_eq(child.name.as_str(), "bg") {
                let text = take_inner_text(child)?;
                match Tilemap::<char>::load(text, tile_width, tile_height) {
                    Some(map) => {
                        bg = map;
                    },
                    None => {},
                }
            } else if str_eq(child.name.as_str(), "bgtiles") {
                let text = take_inner_text(child)?;
                match Tilemap::<i32>::load(text, tile_width, tile_height) {
                    Some(map) => {
                        bg_tiles = map;
                    },
                    None => {},
                }
            } else if str_eq(child.name.as_str(), "fgtiles") {
                let text = take_inner_text(child)?;
                match Tilemap::<i32>::load(text, tile_width, tile_height) {
                    Some(map) => {
                        fg_tiles = map;
                    },
                    None => {},
                }
            } else if str_eq(child.name.as_str(), "solids") {
                let text = take_inner_text(child)?;
                match Tilemap::<char>::load(text, tile_width, tile_height) {
                    Some(map) => {
                        solids = map;
                    },
                    None => {},
                }
            } else if str_eq(child.name.as_str(), "objtiles") {
                let text = take_inner_text(child)?;
                match Tilemap::<i32>::load(text, tile_width, tile_height) {
                    Some(map) => {
                        obj_tiles = map;
                    },
                    None => {},
                }
            } else {
                let ghost before = element_views(extra_children@);
                extra_children.push(child);
                assert(element_views(extra_children@) == before.push(child@));
            }
        }
        assert(children.take(children.len() as int) == children);
        Ok(
            Level {
                name,
                data,
                entities,
                triggers,
                bg_decals,
                fg_decals,
                bg,
                bg_tiles,
                fg_tiles,
                obj_tiles,
                solids,
                extra_data: attrs,
                extra_children,
            },
        )
    }

    fn write(self) -> (r: Element) {
        let mut attributes = self.extra_data;
        let mut children = self.extra_children;
        let ghost kept = element_views(children@);
        let bg = Value::RleString(self.bg.store());
        let bg_tiles = Value::String(self.bg_tiles.store());
        let fg_tiles = Value::String(self.fg_tiles.store());
        let obj_tiles = Value::String(self.obj_tiles.store());
        let solids = Value::RleString(self.solids.store());
        self.data.store_to(&mut attributes);
        put(&mut attributes, "name", Value::String(self.name));
        children.push(group_element("entities", write_all(self.entities)));
        children.push(group_element("triggers", write_all(self.triggers)));
        children.push(group_element("bgdecals", write_all(self.bg_decals)));
        children.push(group_element("fgdecals", write_all(self.fg_decals)));
        children.push(text_leaf_element("bg", bg));
        children.push(text_leaf_element("bgtiles", bg_tiles));
        children.push(text_leaf_element("fgtiles", fg_tiles));
        children.push(text_leaf_element("objtiles", obj_tiles));
        children.push(text_leaf_element("solids", solids));
        assert(element_views(children@) =~= kept + level_children(self@));
        let r = Element { name: "level".to_owned(), attributes, children };
        proof {
            crate::element::lemma_children_view(r);
        }
        r
    }
}

impl TryFrom<Element> for Level {
    type Error = LoadError;

    fn try_from(value: Element) -> (r: Result<Level, LoadError>)
        ensures
            match level_of(value@) {
                Ok(level) => r is Ok && r->Ok_0@ == level,
                Err(e) => r is Err && r->Err_0@ == e,
            },
    {
        Level::read(value)
    }
}

impl TryFromSpecImpl<Element> for Level {
    open spec fn obeys_try_from_spec() -> bool {
        false
    }

    open spec fn try_from_spec(v: Element) -> Result<Level, LoadError> {
        arbitrary()
    }
}

impl From<Level> for Element {
    fn from(value: Level) -> (r: Element)
        ensures
            r@ == element_of_level(value@),
    {
        value.write()
    }
}

impl FromSpecImpl<Level> for Element {
    open spec fn obeys_from_spec() -> bool {
        false
    }

    open spec fn from_spec(v: Level) -> Element {
        arbitrary()
    }
}

/// The children of the last element of a list that has the given name, or
/// `otherwise` where no element has it.
pub open spec fn last_named(
    elements: Seq<ElementView>,
    name: Seq<char>,
    otherwise: Seq<ElementView>,
) -> Seq<ElementView>
    decreases elements.len(),
{
    if elements.len() == 0 {
        otherwise
    } else if elements.last().name == name {
        elements.last().children
    } else {
        last_named(elements.drop_last(), name, otherwise)
    }
}

/// What the children of a map's element hold.
pub ghost struct MapParts {
    pub filler: Seq<Filler>,
    pub levels: Seq<LevelView>,
    pub foregrounds: Seq<ElementView>,
    pub backgrounds: Seq<ElementView>,
    pub bg_color: Option<Seq<u8>>,
    pub extra_children: Seq<ElementView>,
}

/// The parts of a map whose element has no children.
pub open spec fn no_map_parts() -> MapParts {
    MapParts {
        filler: Seq::empty(),
        levels: Seq::empty(),
        foregrounds: Seq::empty(),
        backgrounds: Seq::empty(),
        bg_color: None,
        extra_children: Seq::empty(),
    }
}

/// What a `Style` child makes of the parts of a map: its color, which must
/// be a text of hexadecimal digits, is the background color,
/// absent where the child has none; the children of its last `Foregrounds`
/// and `Backgrounds` replace the map's.
pub open spec fn with_style(parts: MapParts, child: ElementView) -> Result<MapParts, LoadErrorView> {
    let text = optional_text_of(child.attributes, "color"@);
    let styled = MapParts {
        foregrounds: last_named(child.children, "Foregrounds"@, parts.foregrounds),
        backgrounds: last_named(child.children, "Backgrounds"@, parts.backgrounds),
        ..parts
    };
    if kind_error(child.attributes, "color"@, Kind::Text) is Some {
        Err(kind_error(child.attributes, "color"@, Kind::Text)->Some_0)
    } else if text is None {
        Ok(MapParts { bg_color: None, ..styled })
    } else if color_of_text(text->Some_0) is None {
        Err(LoadErrorView::InvalidFieldData("color"@, text->Some_0))
    } else {
        Ok(MapParts { bg_color: color_of_text(text->Some_0), ..styled })
    }
}

/// What one more child makes of the parts of a map. A child that is named
/// as one of the parts replaces that part; any other child is kept as it is.
pub open spec fn with_map_child(parts: MapParts, child: ElementView) -> Result<
    MapParts,
    LoadErrorView,
> {
    if child.name == "Filler"@ {
        match read_each::<Filler>(child.children) {
            Ok(filler) => Ok(MapParts { filler, ..parts }),
            Err(e) => Err(e),
        }
    } else if child.name == "Style"@ {
        with_style(parts, child)
    } else if child.name == "levels"@ {
        match read_each::<Level>(child.children) {
            Ok(levels) => Ok(MapParts { levels, ..parts }),
            Err(e) => Err(e),
        }
    } else {
        Ok(MapParts { extra_children: parts.extra_children.push(child), ..parts })
    }
}

/// What the children of a map's element hold, taken in order, or the first
/// error among them.
pub open spec fn map_parts(children: Seq<ElementView>) -> Result<MapParts, LoadErrorView>
    decreases children.len(),
{
    if children.len() == 0 {
        Ok(no_map_parts())
    } else {
        match map_parts(children.drop_last()) {
            Err(e) => Err(e),
            Ok(parts) => with_map_child(parts, children.last()),
        }
    }
}

/// Once a child has failed, the children behind it do not change the outcome.
pub proof fn lemma_map_parts_error_stays(children: Seq<ElementView>, n: int)
    requires
        0 <= n <= children.len(),
        map_parts(children.take(n)) is Err,
    ensures
        map_parts(children) == map_parts(children.take(n)),
    decreases children.len() - n,
{
    if n == children.len() {
        assert(children.take(n) == children);
    } else {
        assert(children.take(n + 1).drop_last() == children.take(n));
        lemma_map_parts_error_stays(children, n + 1);
    }
}

/// The map that an element stands for. The element must be named `Map`. Its
/// attribute `_package` is the name of the map's package, empty where there
/// is none; its other attributes are kept.
pub open spec fn map_of(e: ElementView) -> Result<MapDataView, LoadErrorView> {
    let a = e.attributes;
    let parts = map_parts(e.children);
    if name_error(e, "Map"@) is Some {
        Err(name_error(e, "Map"@)->Some_0)
    } else if kind_error(a, "_package"@, Kind::Text) is Some {
        Err(kind_error(a, "_package"@, Kind::Text)->Some_0)
    } else if parts is Err {
        Err(parts->Err_0)
    } else {
        Ok(
            MapDataView {
                package: text_of(a, "_package"@, Seq::empty()),
                filler: parts->Ok_0.filler,
                levels: parts->Ok_0.levels,
                foregrounds: parts->Ok_0.foregrounds,
                backgrounds: parts->Ok_0.backgrounds,
                bg_color: parts->Ok_0.bg_color,
                extra_data: a.remove("_package"@),
                extra_children: parts->Ok_0.extra_children,
            },
        )
    }
}

/// The `Style` child of a map's element: the background color, where there
/// is one, and the foreground and background decorations.
pub open spec fn style_element(m: MapDataView) -> ElementView {
    ElementView {
        name: "Style"@,
        attributes: insert_if(
            Map::empty(),
            m.bg_color is Some,
            "color"@,
            ValueView::String(color_text(m.bg_color->Some_0)),
        ),
        children: seq![group("Foregrounds"@, m.foregrounds), group("Backgrounds"@, m.backgrounds)],
    }
}

/// The element that stands for a map: the attributes that the map keeps,
/// with the name of its package; and behind the children that the map keeps
/// its filler rectangles, its style and its levels.
pub open spec fn element_of_map(m: MapDataView) -> ElementView {
    ElementView {
        name: "Map"@,
        attributes: m.extra_data.insert("_package"@, ValueView::String(m.package)),
        children: m.extra_children + seq![
            group("Filler"@, write_each::<Filler>(m.filler)),
            style_element(m),
            group("levels"@, write_each::<Level>(m.levels)),
        ],
    }
}

/// Reads what a `Style` child holds: the background color, and the children
/// of its last `Foregrounds` and `Backgrounds`, which replace those given.
fn read_style(child: Element, foregrounds: Vec<Element>, backgrounds: Vec<Element>) -> (r: Result<
    (Option<[u8; 4]>, Vec<Element>, Vec<Element>),
    LoadError,
>)
    ensures
        ({
            let parts = MapParts {
                foregrounds: element_views(foregrounds@),
                backgrounds: element_views(backgrounds@),
                ..no_map_parts()
            };
            match with_style(parts, child@) {
                Ok(styled) => r is Ok && styled.bg_color == (match r->Ok_0.0 {
                    Some(color) => Some(color@),
                    None => None,
                }) && styled.foregrounds == element_views(r->Ok_0.1@) && styled.backgrounds
                    == element_views(r->Ok_0.2@),
                Err(e) => r is Err && r->Err_0@ == e,
            }
        }),
{
    proof {
        crate::element::lemma_children_view(child);
    }
    proof {
        reveal_strlit("Foregrounds");
        reveal_strlit("Backgrounds");
        assert(shape("Foregrounds"@) == (11nat, 'F', 's'));
        assert(shape("Backgrounds"@) == (11nat, 'B', 's'));
        assert("Foregrounds"@ != "Backgrounds"@);
    }
    let mut attrs = child.attributes;
    let bg_color = match remove_optional_text(&mut attrs, "color")? {
        Some(text) => Some(parse_color(text)?),
        None => None,
    };
    let mut foregrounds = foregrounds;
    let mut backgrounds = backgrounds;
    let ghost first_fore = element_views(foregrounds@);
    let ghost first_back = element_views(backgrounds@);
    let ghost children = child@.children;
    assert(children.take(0) =~= Seq::empty());
    for grandchild in iter: child.children
        invariant
            iter.seq() == child.children@,
            children == element_views(child.children@),
            "Foregrounds"@ != "Backgrounds"@,
            element_views(foregrounds@) == last_named(
                children.take(iter.index()),
                "Foregrounds"@,
                first_fore,
            ),
            element_views(backgrounds@) == last_named(
                children.take(iter.index()),
                "Backgrounds"@,
                first_back,
            ),
    {
        let ghost i = iter.index();
        proof {
            assert(children.take(i + 1).drop_last() == children.take(i));
            assert(children.take(i + 1).last() == grandchild@);
            crate::element::lemma_children_view(grandchild);
        }
        if str_eq(grandchild.name.as_str(), "Foregrounds") {
            foregrounds = grandchild.children;
        } else if str_eq(grandchild.name.as_str(), "Backgrounds") {
            backgrounds = grandchild.children;
        }
    }
    assert(children.take(children.len() as int) == children);
    Ok((bg_color, foregrounds, backgrounds))
}

impl MapElement for MapData {
    open spec fn spec_read(e: ElementView) -> Result<MapDataView, LoadErrorView> {
        map_of(e)
    }

    open spec fn spec_write(v: MapDataView) -> ElementView {
        element_of_map(v)
    }

    #[verifier::rlimit(30)]
    fn read(value: Element) -> (r: Result<MapData, LoadError>) {
        proof {
            reveal_strlit("");
            crate::element::lemma_children_view(value);
        }
        if !str_eq(value.name.as_str(), "Map") {
            return Err(LoadError::InvalidElementName(value.name, "Map"));
        }
        let mut attrs = value.attributes;
        let package = remove_text(&mut attrs, "_package", "")?;
        let mut bg_color: Option<[u8; 4]> = None;
        let mut filler: Vec<Filler> = Vec::new();
        let mut foregrounds: Vec<Element> = Vec::new();
        let mut backgrounds: Vec<Element> = Vec::new();
        let mut levels: Vec<Level> = Vec::new();
        let mut extra_children: Vec<Element> = Vec::new();
        let ghost children = value@.children;
        proof {
            assert(children.take(0) =~= Seq::empty());
            assert(views(filler@) =~= Seq::empty());
            assert(views(levels@) =~= Seq::empty());
            assert(element_views(foregrounds@) =~= Seq::empty());
            assert(element_views(backgrounds@) =~= Seq::empty());
            assert(element_views(extra_children@) =~= Seq::empty());
        }
        for child in iter: value.children
            invariant
                iter.seq() == value.children@,
                children == element_views(value.children@),
                map_parts(children.take(iter.index())) == Ok::<MapParts, LoadErrorView>(
                    MapParts {
                        filler: views(filler@),
                        levels: views(levels@),
                        foregrounds: element_views(foregrounds@),
                        backgrounds: element_views(backgrounds@),
                        bg_color: match bg_color {
                            Some(color) => Some(color@),
                            None => None,
                        },
                        extra_children: element_views(extra_children@),
                    },
                ),
                map_parts(children) is Err ==> map_of(value@) == Err::<MapDataView, LoadErrorView>(
                    map_parts(children)->Err_0,
                ),
        {
            let ghost i = iter.index();
            proof {
                assert(children.take(i + 1).drop_last() == children.take(i));
                assert(children.take(i + 1).last() == child@);
                crate::element::lemma_children_view(child);
                if map_parts(children.take(i + 1)) is Err {
                    lemma_map_parts_error_stays(children, i + 1);
                }
            }
            if str_eq(child.name.as_str(), "Filler") {
                filler = read_all::<Filler>(child.children)?;
            } else if str_eq(child.name.as_str(), "Style") {
                let style = read_style(child, foregrounds, backgrounds)?;
                bg_color = style.0;
                foregrounds = style.1;
                backgrounds = style.2;
            } else if str_eq(child.name.as_str(), "levels") {
                levels = read_all::<Level>(child.children)?;
            } else {
                let ghost before = element_views(extra_children@);
                extra_children.push(child);
                assert(element_views(extra_children@) == before.push(child@));
            }
        }
        assert(children.take(children.len() as int) == children);
        assert(map_parts(children) is Ok);
        assert(name_error(value@, "Map"@) is None);
        assert(kind_error(value@.attributes, "_package"@, Kind::Text) is None);
        assert(package@ == text_of(value@.attributes, "_package"@, Seq::empty()));
        assert(attrs@ == value@.attributes.remove("_package"@));
        Ok(
            MapData {
                package,
                filler,
                levels,
                foregrounds,
                backgrounds,
                bg_color,
                extra_data: attrs,
                extra_children,
            },
        )
    }

    fn write(self) -> (r: Element) {
        let mut children = self.extra_children;
        let mut attributes = self.extra_data;
        let ghost kept = element_views(children@);
        put(&mut attributes, "_package", Value::String(self.package));
        children.push(group_element("Filler", write_all(self.filler)));
        let mut style_attributes = Attributes::new();
        match self.bg_color {
            Some(color) => {
                put(&mut style_attributes, "color", Value::String(format_color(&color)));
            },
            None => {},
        }
        let mut grounds: Vec<Element> = Vec::new();
        grounds.push(group_element("Foregrounds", self.foregrounds));
        grounds.push(group_element("Backgrounds", self.backgrounds));
        let style = Element { name: "Style".to_owned(), attributes: style_attributes, children: grounds };
        proof {
            crate::element::lemma_children_view(style);
            assert(style@.children =~= style_element(self@).children);
        }
        children.push(style);
        children.push(group_element("levels", write_all(self.levels)));
        let r = Element { name: "Map".to_owned(), attributes, children };
        proof {
            crate::element::lemma_children_view(r);
            assert(r@.children =~= element_of_map(self@).children);
        }
        r
    }
}

impl TryFrom<Element> for MapData {
    type Error = LoadError;

    fn try_from(value: Element) -> (r: Result<MapData, LoadError>)
        ensures
            match map_of(value@) {
                Ok(map) => r is Ok && r->Ok_0@ == map,
                Err(e) => r is Err && r->Err_0@ == e,
            },
    {
        MapData::read(value)
    }
}

impl TryFromSpecImpl<Element> for MapData {
    open spec fn obeys_try_from_spec() -> bool {
        false
    }

    open spec fn try_from_spec(v: Element) -> Result<MapData, LoadError> {
        arbitrary()
    }
}

impl From<MapData> for Element {
    fn from(value: MapData) -> (r: Element)
        ensures
            r@ == element_of_map(value@),
    {
        value.write()
    }
}

impl FromSpecImpl<MapData> for Element {
    open spec fn obeys_from_spec() -> bool {
        false
    }

    open spec fn from_spec(v: MapData) -> Element {
        arbitrary()
    }
}

} // verus!
