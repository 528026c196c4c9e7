//! What is written comes back: the typed objects of a map are read back
//! from the elements that stand for them.
//!
//! Every object that is read from an element is *sound*: it keeps no
//! attribute and no child that it would take for one of its own, its colors
//! have four bytes, and its tilemaps have the shape that its size calls for.
//! A sound object comes back from its element unless it holds one of the few
//! things that are written otherwise than they were read: a rotation of
//! negative zero, which is left out like zero, or a carriage return at the
//! end of a row of tiles, which is taken for a part of the line ending.

use vstd::prelude::*;
use crate::element::{ElementView, ValueView};
use crate::error::LoadErrorView;
use crate::map_data::{
    Decal, DecalView, Entity, EntityView, Filler, Level, LevelDataView, LevelView, MapDataView,
};
use crate::map_serde::{
    collect, decal_of, element_of_entity, element_of_level, element_of_map, entity_names,
    entity_of, group, inner_text, inner_text_error, kind_error, last_named, lemma_collect_all_ok,
    lemma_color_round_trip, lemma_decal_names, lemma_decal_round_trip, lemma_entity_names,
    lemma_entity_round_trip, lemma_filler_round_trip, lemma_level_names, level_children,
    level_data_attrs, level_data_error, level_data_names, level_data_of, level_names, level_of,
    level_parts, map_of, map_parts, no_map_parts, no_parts, progress_error, progress_of,
    progress_text, read_each, shape, style_element, text_leaf, text_of, tiles, with_child,
    with_map_child, write_each, Kind, LevelParts, MapElement, MapParts,
};
use crate::text::lemma_parse_decimal_text;
use crate::tilemap::{
    char_grid_text, id_grid_text, lemma_char_grid_read, lemma_char_grid_round_trip,
    lemma_id_grid_round_trip, readable, Grid,
};

verus! {

/// The text of an integer that may be absent is read back as it was.
pub proof fn lemma_progress_round_trip(a: Map<Seq<char>, ValueView>, key: Seq<char>, v: Option<i32>)
    requires
        a.dom().contains(key),
        a[key] == ValueView::String(progress_text(v)),
    ensures
        progress_error(a, key) is None,
        progress_of(a, key) == v,
{
    match v {
        Some(n) => {
            lemma_parse_decimal_text(n);
        },
        None => {},
    }
}

/// What the attributes hold once the data of a level is written over them:
/// each piece of the data under its name.
#[verifier::rlimit(30)]
pub proof fn lemma_level_data_written(d: LevelDataView, base: Map<Seq<char>, ValueView>)
    requires
        !base.dom().contains("enforceDashNumber"@),
    ensures
        level_data_attrs(d, base).dom().contains("musicProgress"@) && level_data_attrs(d, base)["musicProgress"@] == ValueView::String(progress_text(d.music_progress)),
        level_data_attrs(d, base).dom().contains("ambienceProgress"@) && level_data_attrs(d, base)["ambienceProgress"@] == ValueView::String(progress_text(d.ambience_progress)),
        level_data_attrs(d, base).dom().contains("x"@) && level_data_attrs(d, base)["x"@] == ValueView::Integer(d.position.0),
        level_data_attrs(d, base).dom().contains("y"@) && level_data_attrs(d, base)["y"@] == ValueView::Integer(d.position.1),
        level_data_attrs(d, base).dom().contains("width"@) && level_data_attrs(d, base)["width"@] == ValueView::Integer(d.size.0),
        level_data_attrs(d, base).dom().contains("height"@) && level_data_attrs(d, base)["height"@] == ValueView::Integer(d.size.1),
        level_data_attrs(d, base).dom().contains("musicLayer1"@) && level_data_attrs(d, base)["musicLayer1"@] == ValueView::Boolean(d.music_layers[0]),
        level_data_attrs(d, base).dom().contains("musicLayer2"@) && level_data_attrs(d, base)["musicLayer2"@] == ValueView::Boolean(d.music_layers[1]),
        level_data_attrs(d, base).dom().contains("musicLayer3"@) && level_data_attrs(d, base)["musicLayer3"@] == ValueView::Boolean(d.music_layers[2]),
        level_data_attrs(d, base).dom().contains("musicLayer4"@) && level_data_attrs(d, base)["musicLayer4"@] == ValueView::Boolean(d.music_layers[3]),
        level_data_attrs(d, base).dom().contains("underwater"@) && level_data_attrs(d, base)["underwater"@] == ValueView::Boolean(d.underwater),
        level_data_attrs(d, base).dom().contains("space"@) && level_data_attrs(d, base)["space"@] == ValueView::Boolean(d.space),
        level_data_attrs(d, base).dom().contains("disableDownTransition"@) && level_data_attrs(d, base)["disableDownTransition"@] == ValueView::Boolean(d.disable_down_transition),
        level_data_attrs(d, base).dom().contains("cameraOffsetX"@) && level_data_attrs(d, base)["cameraOffsetX"@] == ValueView::Integer(d.camera_offset.0),
        level_data_attrs(d, base).dom().contains("cameraOffsetY"@) && level_data_attrs(d, base)["cameraOffsetY"@] == ValueView::Integer(d.camera_offset.1),
        level_data_attrs(d, base).dom().contains("windPattern"@) && level_data_attrs(d, base)["windPattern"@] == ValueView::String(d.wind_pattern),
        level_data_attrs(d, base).dom().contains("alt_music"@) && level_data_attrs(d, base)["alt_music"@] == ValueView::String(d.alt_music),
        level_data_attrs(d, base).dom().contains("ambience"@) && level_data_attrs(d, base)["ambience"@] == ValueView::String(d.ambience),
        level_data_attrs(d, base).dom().contains("delayAltMusicFade"@) && level_data_attrs(d, base)["delayAltMusicFade"@] == ValueView::Boolean(d.delay_alt_music_fade),
        level_data_attrs(d, base).dom().contains("music"@) && level_data_attrs(d, base)["music"@] == ValueView::String(d.music),
        level_data_attrs(d, base).dom().contains("c"@) && level_data_attrs(d, base)["c"@] == ValueView::Integer(d.color),
        level_data_attrs(d, base).dom().contains("dark"@) && level_data_attrs(d, base)["dark"@] == ValueView::Boolean(d.dark),
        level_data_attrs(d, base).dom().contains("enforceDashNumber"@) == (d.enforce_dash_number is Some),
        d.enforce_dash_number is Some ==> level_data_attrs(d, base)["enforceDashNumber"@] == ValueView::Integer(d.enforce_dash_number->Some_0),
        level_data_attrs(d, base).dom().contains("whisper"@) && level_data_attrs(d, base)["whisper"@] == ValueView::Boolean(d.whisper),
{
    lemma_level_names();
}

/// Writing the data of a level over attributes leaves every attribute under
/// another name as it was.
pub proof fn lemma_level_data_leaves_others(d: LevelDataView, base: Map<Seq<char>, ValueView>)
    ensures
        level_data_attrs(d, base).remove_keys(level_data_names()) == base.remove_keys(
            level_data_names(),
        ),
{
    assert(level_data_attrs(d, base).remove_keys(level_data_names()) =~= base.remove_keys(
        level_data_names(),
    ));
}

/// The data of a level is read back from the attributes that it was written
/// over, where those held no dash number of their own.
#[verifier::rlimit(30)]
pub proof fn lemma_level_data_round_trip(d: LevelDataView, base: Map<Seq<char>, ValueView>)
    requires
        d.music_layers.len() == 4,
        !base.dom().contains("enforceDashNumber"@),
    ensures
        level_data_error(level_data_attrs(d, base)) is None,
        level_data_of(level_data_attrs(d, base)) == d,
{
    let a = level_data_attrs(d, base);
    lemma_level_data_written(d, base);
    lemma_progress_round_trip(a, "musicProgress"@, d.music_progress);
    lemma_progress_round_trip(a, "ambienceProgress"@, d.ambience_progress);
    let got = level_data_of(a);
    assert(got.music_layers =~= d.music_layers);
}

/// Where every object of a list comes back from its element, the list comes
/// back from its elements.
pub proof fn lemma_read_each_round_trip<T: MapElement>(items: Seq<T::V>)
    requires
        forall|i: int|
            0 <= i < items.len() ==> T::spec_read(T::spec_write(#[trigger] items[i])) == Ok::<
                T::V,
                LoadErrorView,
            >(items[i]),
    ensures
        read_each::<T>(write_each::<T>(items)) == Ok::<Seq<T::V>, LoadErrorView>(items),
{
    let results = write_each::<T>(items).map_values(|e: ElementView| T::spec_read(e));
    assert forall|i: int| 0 <= i < results.len() implies #[trigger] results[i] == Ok::<
        T::V,
        LoadErrorView,
    >(items[i]) by {
        assert(results[i] == T::spec_read(T::spec_write(items[i])));
    }
    lemma_collect_all_ok(results, items);
}

/// Where a list of readings succeeds, each of them does, and the outcome
/// holds what each has read.
pub proof fn lemma_collect_each<T>(results: Seq<Result<T, LoadErrorView>>, i: int)
    requires
        collect(results) is Ok,
        0 <= i < results.len(),
    ensures
        collect(results)->Ok_0.len() == results.len(),
        results[i] == Ok::<T, LoadErrorView>(collect(results)->Ok_0[i]),
    decreases results.len(),
{
    if i < results.len() - 1 {
        lemma_collect_each(results.drop_last(), i);
    } else if results.len() > 1 {
        lemma_collect_each(results.drop_last(), 0);
    }
}

/// Whether a name is that of a child which holds a part of a level.
pub open spec fn is_part_name(name: Seq<char>) -> bool {
    ||| name == "entities"@
    ||| name == "triggers"@
    ||| name == "bgdecals"@
    ||| name == "fgdecals"@
    ||| name == "bg"@
    ||| name == "bgtiles"@
    ||| name == "fgtiles"@
    ||| name == "solids"@
    ||| name == "objtiles"@
}

/// The names of the children that hold the parts of a level differ in
/// shape.
pub proof fn lemma_part_names()
    ensures
        shape("entities"@) == (8nat, 'e', 's'),
        shape("triggers"@) == (8nat, 't', 's'),
        shape("bgdecals"@) == (8nat, 'b', 's'),
        shape("fgdecals"@) == (8nat, 'f', 's'),
        shape("bg"@) == (2nat, 'b', 'g'),
        shape("bgtiles"@) == (7nat, 'b', 's'),
        shape("fgtiles"@) == (7nat, 'f', 's'),
        shape("solids"@) == (6nat, 's', 's'),
        shape("objtiles"@) == (8nat, 'o', 's'),
{
    reveal_strlit("entities");
    reveal_strlit("triggers");
    reveal_strlit("bgdecals");
    reveal_strlit("fgdecals");
    reveal_strlit("bg");
    reveal_strlit("bgtiles");
    reveal_strlit("fgtiles");
    reveal_strlit("solids");
    reveal_strlit("objtiles");
}

/// An entity that keeps no attribute under a name that it knows.
pub open spec fn sound_entity(en: EntityView) -> bool {
    en.values.dom().disjoint(entity_names())
}

/// A decal whose color has four bytes.
pub open spec fn sound_decal(d: DecalView) -> bool {
    d.color.len() == 4
}

/// A grid of the given shape with a cell for each place.
pub open spec fn shaped<T>(g: Grid<T>, width: nat, height: nat) -> bool {
    g.well_formed() && g.width == width && g.height == height
}

/// A grid of characters none of which is a line feed.
pub open spec fn one_line_cells(g: Grid<char>) -> bool {
    forall|i: int| 0 <= i < g.cells.len() ==> #[trigger] g.cells[i] != '\n'
}

/// Parts of a level as they are read from the children of its element.
pub open spec fn sound_parts(parts: LevelParts, width: nat, height: nat) -> bool {
    &&& forall|i: int| 0 <= i < parts.entities.len() ==> sound_entity(#[trigger] parts.entities[i])
    &&& forall|i: int| 0 <= i < parts.triggers.len() ==> sound_entity(#[trigger] parts.triggers[i])
    &&& forall|i: int| 0 <= i < parts.bg_decals.len() ==> sound_decal(#[trigger] parts.bg_decals[i])
    &&& forall|i: int| 0 <= i < parts.fg_decals.len() ==> sound_decal(#[trigger] parts.fg_decals[i])
    &&& forall|i: int|
        0 <= i < parts.extra_children.len() ==> !is_part_name(
            (#[trigger] parts.extra_children[i]).name,
        )
    &&& shaped(parts.bg, width, height)
    &&& shaped(parts.bg_tiles, width, height)
    &&& shaped(parts.fg_tiles, width, height)
    &&& shaped(parts.obj_tiles, width, height)
    &&& shaped(parts.solids, width, height)
    &&& one_line_cells(parts.bg)
    &&& one_line_cells(parts.solids)
}

/// The parts of a level as the level holds them.
pub open spec fn parts_of(l: LevelView) -> LevelParts {
    LevelParts {
        entities: l.entities,
        triggers: l.triggers,
        bg_decals: l.bg_decals,
        fg_decals: l.fg_decals,
        bg: l.bg,
        bg_tiles: l.bg_tiles,
        fg_tiles: l.fg_tiles,
        obj_tiles: l.obj_tiles,
        solids: l.solids,
        extra_children: l.extra_children,
    }
}

/// A level as it is read from an element: its size is not negative, its
/// tilemaps have a tile for every eight pixels of it, and it keeps nothing
/// that it would take for its own.
pub open spec fn sound_level(l: LevelView) -> bool {
    &&& l.data.size.0 >= 0
    &&& l.data.size.1 >= 0
    &&& l.data.music_layers.len() == 4
    &&& tiles(l.data.size.0) * tiles(l.data.size.1) <= usize::MAX
    &&& l.extra_data.dom().disjoint(level_names())
    &&& sound_parts(parts_of(l), tiles(l.data.size.0), tiles(l.data.size.1))
}

/// A level that comes back from its element: a sound one without a decal
/// whose rotation is negative zero, and without a tilemap of characters
/// whose text cannot be read back.
pub open spec fn level_comes_back(l: LevelView) -> bool {
    &&& sound_level(l)
    &&& forall|i: int|
        0 <= i < l.bg_decals.len() ==> (#[trigger] l.bg_decals[i]).rotation.bits != 0x8000_0000
    &&& forall|i: int|
        0 <= i < l.fg_decals.len() ==> (#[trigger] l.fg_decals[i]).rotation.bits != 0x8000_0000
    &&& readable(l.bg)
    &&& readable(l.solids)
}

/// The entities that are read from elements are sound.
pub proof fn lemma_entities_read_sound(elements: Seq<ElementView>)
    requires
        read_each::<Entity>(elements) is Ok,
    ensures
        forall|i: int|
            0 <= i < read_each::<Entity>(elements)->Ok_0.len() ==> sound_entity(
                #[trigger] read_each::<Entity>(elements)->Ok_0[i],
            ),
{
    let results = elements.map_values(|e: ElementView| Entity::spec_read(e));
    let read = read_each::<Entity>(elements)->Ok_0;
    assert forall|i: int| 0 <= i < read.len() implies sound_entity(#[trigger] read[i]) by {
        lemma_collect_each(results, 0);
        lemma_collect_each(results, i);
        assert(results[i] == entity_of(elements[i]));
    }
}

/// The decals that are read from elements are sound.
pub proof fn lemma_decals_read_sound(elements: Seq<ElementView>)
    requires
        read_each::<Decal>(elements) is Ok,
    ensures
        forall|i: int|
            0 <= i < read_each::<Decal>(elements)->Ok_0.len() ==> sound_decal(
                #[trigger] read_each::<Decal>(elements)->Ok_0[i],
            ),
{
    let results = elements.map_values(|e: ElementView| Decal::spec_read(e));
    let read = read_each::<Decal>(elements)->Ok_0;
    assert forall|i: int| 0 <= i < read.len() implies sound_decal(#[trigger] read[i]) by {
        lemma_collect_each(results, 0);
        lemma_collect_each(results, i);
        assert(results[i] == decal_of(elements[i]));
    }
}

/// One more child leaves sound parts sound.
pub proof fn lemma_with_child_sound(parts: LevelParts, child: ElementView, width: nat, height: nat)
    requires
        sound_parts(parts, width, height),
        with_child(parts, child, width, height) is Ok,
    ensures
        sound_parts(with_child(parts, child, width, height)->Ok_0, width, height),
{
    let next = with_child(parts, child, width, height)->Ok_0;
    if child.name == "entities"@ || child.name == "triggers"@ {
        lemma_entities_read_sound(child.children);
    } else if child.name == "bgdecals"@ || child.name == "fgdecals"@ {
        lemma_decals_read_sound(child.children);
    } else if child.name == "bg"@ || child.name == "solids"@ {
        lemma_char_grid_read(inner_text(child), width, height);
    } else if child.name == "bgtiles"@ || child.name == "fgtiles"@ || child.name == "objtiles"@ {
    } else {
        assert forall|i: int| 0 <= i < next.extra_children.len() implies !is_part_name(
            (#[trigger] next.extra_children[i]).name,
        ) by {
            if i < parts.extra_children.len() {
                assert(next.extra_children[i] == parts.extra_children[i]);
            }
        }
    }
}

/// The parts that are read from the children of a level's element are
/// sound.
pub proof fn lemma_level_parts_sound(children: Seq<ElementView>, width: nat, height: nat)
    requires
        level_parts(children, width, height) is Ok,
    ensures
        sound_parts(level_parts(children, width, height)->Ok_0, width, height),
    decreases children.len(),
{
    if children.len() > 0 {
        lemma_level_parts_sound(children.drop_last(), width, height);
        lemma_with_child_sound(
            level_parts(children.drop_last(), width, height)->Ok_0,
            children.last(),
            width,
            height,
        );
    }
}

/// The level that is read from an element is sound.
pub proof fn lemma_level_read_sound(e: ElementView)
    requires
        level_of(e) is Ok,
    ensures
        sound_level(level_of(e)->Ok_0),
{
    let l = level_of(e)->Ok_0;
    let width = tiles(level_data_of(e.attributes).size.0);
    let height = tiles(level_data_of(e.attributes).size.1);
    lemma_level_parts_sound(e.children, width, height);
    assert(parts_of(l) == level_parts(e.children, width, height)->Ok_0);
}

/// Children none of which holds a part of a level are all kept.
pub proof fn lemma_level_parts_kept(children: Seq<ElementView>, width: nat, height: nat)
    requires
        forall|i: int| 0 <= i < children.len() ==> !is_part_name((#[trigger] children[i]).name),
    ensures
        level_parts(children, width, height) == Ok::<LevelParts, LoadErrorView>(
            LevelParts { extra_children: children, ..no_parts(width, height) },
        ),
    decreases children.len(),
{
    if children.len() == 0 {
        assert(children =~= Seq::empty());
    } else {
        let front = children.drop_last();
        assert forall|i: int| 0 <= i < front.len() implies !is_part_name((#[trigger] front[i]).name) by {
            assert(front[i] == children[i]);
        }
        lemma_level_parts_kept(front, width, height);
        assert(!is_part_name(children[children.len() - 1].name));
        assert(front.push(children.last()) =~= children);
    }
}

/// The entities of a level that comes back come back from their elements.
pub proof fn lemma_entities_round_trip(entities: Seq<EntityView>)
    requires
        forall|i: int| 0 <= i < entities.len() ==> sound_entity(#[trigger] entities[i]),
    ensures
        read_each::<Entity>(write_each::<Entity>(entities)) == Ok::<Seq<EntityView>, LoadErrorView>(
            entities,
        ),
{
    assert forall|i: int| 0 <= i < entities.len() implies Entity::spec_read(
        Entity::spec_write(#[trigger] entities[i]),
    ) == Ok::<EntityView, LoadErrorView>(entities[i]) by {
        lemma_entity_round_trip(entities[i]);
    }
    lemma_read_each_round_trip::<Entity>(entities);
}

/// The decals of a level that comes back come back from their elements.
pub proof fn lemma_decals_round_trip(decals: Seq<DecalView>)
    requires
        forall|i: int|
            0 <= i < decals.len() ==> sound_decal(#[trigger] decals[i]) && decals[i].rotation.bits
                != 0x8000_0000,
    ensures
        read_each::<Decal>(write_each::<Decal>(decals)) == Ok::<Seq<DecalView>, LoadErrorView>(
            decals,
        ),
{
    assert forall|i: int| 0 <= i < decals.len() implies Decal::spec_read(
        Decal::spec_write(#[trigger] decals[i]),
    ) == Ok::<DecalView, LoadErrorView>(decals[i]) by {
        lemma_decal_round_trip(decals[i]);
    }
    lemma_read_each_round_trip::<Decal>(decals);
}

/// The text of a tilemap's element.
pub proof fn lemma_text_leaf(name: Seq<char>, text: ValueView)
    requires
        text is String || text is RleString,
    ensures
        inner_text_error(text_leaf(name, text)) is None,
        inner_text(text_leaf(name, text)) == match text {
            ValueView::String(s) => s,
            ValueView::RleString(s) => s,
            _ => Seq::empty(),
        },
        text_leaf(name, text).name == name,
{
}

/// What a child with entities makes of the parts of a level.
pub proof fn lemma_with_entities(parts: LevelParts, entities: Seq<EntityView>, width: nat, height: nat)
    requires
        read_each::<Entity>(write_each::<Entity>(entities)) == Ok::<Seq<EntityView>, LoadErrorView>(
            entities,
        ),
    ensures
        with_child(parts, group("entities"@, write_each::<Entity>(entities)), width, height) == Ok::<
            LevelParts,
            LoadErrorView,
        >(LevelParts { entities, ..parts }),
        with_child(parts, group("triggers"@, write_each::<Entity>(entities)), width, height) == Ok::<
            LevelParts,
            LoadErrorView,
        >(LevelParts { triggers: entities, ..parts }),
{
    lemma_part_names();
}

/// What a child with decals makes of the parts of a level.
pub proof fn lemma_with_decals(parts: LevelParts, decals: Seq<DecalView>, width: nat, height: nat)
    requires
        read_each::<Decal>(write_each::<Decal>(decals)) == Ok::<Seq<DecalView>, LoadErrorView>(
            decals,
        ),
    ensures
        with_child(parts, group("bgdecals"@, write_each::<Decal>(decals)), width, height) == Ok::<
            LevelParts,
            LoadErrorView,
        >(LevelParts { bg_decals: decals, ..parts }),
        with_child(parts, group("fgdecals"@, write_each::<Decal>(decals)), width, height) == Ok::<
            LevelParts,
            LoadErrorView,
        >(LevelParts { fg_decals: decals, ..parts }),
{
    lemma_part_names();
}

/// What a child with a tilemap of characters makes of the parts of a level.
pub proof fn lemma_with_chars(parts: LevelParts, g: Grid<char>)
    requires
        g.well_formed(),
        readable(g),
    ensures
        with_child(
            parts,
            text_leaf("bg"@, ValueView::RleString(char_grid_text(g))),
            g.width,
            g.height,
        ) == Ok::<LevelParts, LoadErrorView>(LevelParts { bg: g, ..parts }),
        with_child(
            parts,
            text_leaf("solids"@, ValueView::RleString(char_grid_text(g))),
            g.width,
            g.height,
        ) == Ok::<LevelParts, LoadErrorView>(LevelParts { solids: g, ..parts }),
{
    lemma_part_names();
    lemma_char_grid_round_trip(g);
    lemma_text_leaf("bg"@, ValueView::RleString(char_grid_text(g)));
    lemma_text_leaf("solids"@, ValueView::RleString(char_grid_text(g)));
}

/// What a child with a tilemap of ids makes of the parts of a level.
pub proof fn lemma_with_ids(parts: LevelParts, g: Grid<i32>)
    requires
        g.well_formed(),
    ensures
        with_child(
            parts,
            text_leaf("bgtiles"@, ValueView::String(id_grid_text(g))),
            g.width,
            g.height,
        ) == Ok::<LevelParts, LoadErrorView>(LevelParts { bg_tiles: g, ..parts }),
        with_child(
            parts,
            text_leaf("fgtiles"@, ValueView::String(id_grid_text(g))),
            g.width,
            g.height,
        ) == Ok::<LevelParts, LoadErrorView>(LevelParts { fg_tiles: g, ..parts }),
        with_child(
            parts,
            text_leaf("objtiles"@, ValueView::String(id_grid_text(g))),
            g.width,
            g.height,
        ) == Ok::<LevelParts, LoadErrorView>(LevelParts { obj_tiles: g, ..parts }),
{
    lemma_part_names();
    lemma_id_grid_round_trip(g);
    lemma_text_leaf("bgtiles"@, ValueView::String(id_grid_text(g)));
    lemma_text_leaf("fgtiles"@, ValueView::String(id_grid_text(g)));
    lemma_text_leaf("objtiles"@, ValueView::String(id_grid_text(g)));
}

/// One more child behind children that were read.
pub proof fn lemma_level_parts_push(
    children: Seq<ElementView>,
    child: ElementView,
    width: nat,
    height: nat,
)
    requires
        level_parts(children, width, height) is Ok,
    ensures
        level_parts(children.push(child), width, height) == with_child(
            level_parts(children, width, height)->Ok_0,
            child,
            width,
            height,
        ),
{
    assert(children.push(child).drop_last() == children);
}

/// The parts of a level that comes back are read back from the children of
/// its element.
#[verifier::rlimit(30)]
pub proof fn lemma_level_parts_round_trip(l: LevelView)
    requires
        level_comes_back(l),
    ensures
        level_parts(
            l.extra_children + level_children(l),
            tiles(l.data.size.0),
            tiles(l.data.size.1),
        ) == Ok::<LevelParts, LoadErrorView>(parts_of(l)),
{
    let w = tiles(l.data.size.0);
    let h = tiles(l.data.size.1);
    let own = level_children(l);
    let parts = parts_of(l);
    assert(sound_parts(parts, w, h));
    assert forall|i: int| 0 <= i < l.entities.len() implies sound_entity(#[trigger] l.entities[i]) by {
        assert(sound_entity(parts.entities[i]));
    }
    assert forall|i: int| 0 <= i < l.triggers.len() implies sound_entity(#[trigger] l.triggers[i]) by {
        assert(sound_entity(parts.triggers[i]));
    }
    assert forall|i: int| 0 <= i < l.bg_decals.len() implies sound_decal(#[trigger] l.bg_decals[i])
        && l.bg_decals[i].rotation.bits != 0x8000_0000 by {
        assert(sound_decal(parts.bg_decals[i]));
    }
    assert forall|i: int| 0 <= i < l.fg_decals.len() implies sound_decal(#[trigger] l.fg_decals[i])
        && l.fg_decals[i].rotation.bits != 0x8000_0000 by {
        assert(sound_decal(parts.fg_decals[i]));
    }
    assert forall|i: int| 0 <= i < l.extra_children.len() implies !is_part_name(
        (#[trigger] l.extra_children[i]).name,
    ) by {
        assert(!is_part_name(parts.extra_children[i].name));
    }
    lemma_entities_round_trip(l.entities);
    lemma_entities_round_trip(l.triggers);
    lemma_decals_round_trip(l.bg_decals);
    lemma_decals_round_trip(l.fg_decals);
    let s0 = l.extra_children;
    let held0 = LevelParts { extra_children: s0, ..no_parts(w, h) };
    lemma_level_parts_kept(s0, w, h);
    let s1 = s0.push(own[0]);
    let held1 = LevelParts { entities: l.entities, ..held0 };
    lemma_level_parts_push(s0, own[0], w, h);
    lemma_with_entities(held0, l.entities, w, h);
    let s2 = s1.push(own[1]);
    let held2 = LevelParts { triggers: l.triggers, ..held1 };
    lemma_level_parts_push(s1, own[1], w, h);
    lemma_with_entities(held1, l.triggers, w, h);
    let s3 = s2.push(own[2]);
    let held3 = LevelParts { bg_decals: l.bg_decals, ..held2 };
    lemma_level_parts_push(s2, own[2], w, h);
    lemma_with_decals(held2, l.bg_decals, w, h);
    let s4 = s3.push(own[3]);
    let held4 = LevelParts { fg_decals: l.fg_decals, ..held3 };
    lemma_level_parts_push(s3, own[3], w, h);
    lemma_with_decals(held3, l.fg_decals, w, h);
    let s5 = s4.push(own[4]);
    let held5 = LevelParts { bg: l.bg, ..held4 };
    lemma_level_parts_push(s4, own[4], w, h);
    lemma_with_chars(held4, l.bg);
    let s6 = s5.push(own[5]);
    let held6 = LevelParts { bg_tiles: l.bg_tiles, ..held5 };
    lemma_level_parts_push(s5, own[5], w, h);
    lemma_with_ids(held5, l.bg_tiles);
    let s7 = s6.push(own[6]);
    let held7 = LevelParts { fg_tiles: l.fg_tiles, ..held6 };
    lemma_level_parts_push(s6, own[6], w, h);
    lemma_with_ids(held6, l.fg_tiles);
    let s8 = s7.push(own[7]);
    let held8 = LevelParts { obj_tiles: l.obj_tiles, ..held7 };
    lemma_level_parts_push(s7, own[7], w, h);
    lemma_with_ids(held7, l.obj_tiles);
    let s9 = s8.push(own[8]);
    let held9 = LevelParts { solids: l.solids, ..held8 };
    lemma_level_parts_push(s8, own[8], w, h);
    lemma_with_chars(held8, l.solids);
    assert(s9 =~= l.extra_children + own);
    assert(held9 == parts_of(l));
}

/// Two sets of attributes that agree on a name are read alike under it.
pub proof fn lemma_same_attribute(
    a: Map<Seq<char>, ValueView>,
    b: Map<Seq<char>, ValueView>,
    key: Seq<char>,
)
    requires
        a.dom().contains(key) <==> b.dom().contains(key),
        a.dom().contains(key) ==> a[key] == b[key],
    ensures
        forall|kind: Kind| kind_error(a, key, kind) == kind_error(b, key, kind),
        forall|default: Seq<char>| text_of(a, key, default) == text_of(b, key, default),
        forall|default: i32| crate::map_serde::int_of(a, key, default) == crate::map_serde::int_of(b, key, default),
        forall|default: bool| crate::map_serde::bool_of(a, key, default) == crate::map_serde::bool_of(b, key, default),
        crate::map_serde::optional_int_of(a, key) == crate::map_serde::optional_int_of(b, key),
        progress_error(a, key) == progress_error(b, key),
        progress_of(a, key) == progress_of(b, key),
{
}

/// What is read of the data of a level depends on nothing but the
/// attributes that hold it.
#[verifier::rlimit(30)]
pub proof fn lemma_level_data_depends(a: Map<Seq<char>, ValueView>, b: Map<Seq<char>, ValueView>)
    requires
        forall|k: Seq<char>|
            level_data_names().contains(k) ==> (a.dom().contains(k) <==> b.dom().contains(k)) && (
            a.dom().contains(k) ==> a[k] == b[k]),
    ensures
        level_data_error(a) == level_data_error(b),
        level_data_of(a) == level_data_of(b),
{
    lemma_level_data_names_listed();
    lemma_same_attribute(a, b, "musicProgress"@);
    lemma_same_attribute(a, b, "ambienceProgress"@);
    lemma_same_attribute(a, b, "x"@);
    lemma_same_attribute(a, b, "y"@);
    lemma_same_attribute(a, b, "width"@);
    lemma_same_attribute(a, b, "height"@);
    lemma_same_attribute(a, b, "musicLayer1"@);
    lemma_same_attribute(a, b, "musicLayer2"@);
    lemma_same_attribute(a, b, "musicLayer3"@);
    lemma_same_attribute(a, b, "musicLayer4"@);
    lemma_same_attribute(a, b, "underwater"@);
    lemma_same_attribute(a, b, "space"@);
    lemma_same_attribute(a, b, "disableDownTransition"@);
    lemma_same_attribute(a, b, "cameraOffsetX"@);
    lemma_same_attribute(a, b, "cameraOffsetY"@);
    lemma_same_attribute(a, b, "windPattern"@);
    lemma_same_attribute(a, b, "alt_music"@);
    lemma_same_attribute(a, b, "ambience"@);
    lemma_same_attribute(a, b, "delayAltMusicFade"@);
    lemma_same_attribute(a, b, "music"@);
    lemma_same_attribute(a, b, "c"@);
    lemma_same_attribute(a, b, "dark"@);
    lemma_same_attribute(a, b, "enforceDashNumber"@);
    lemma_same_attribute(a, b, "whisper"@);
    assert(level_data_of(a).music_layers =~= level_data_of(b).music_layers);
}

/// Each of the names of the attributes that hold the data of a level is one
/// of them.
pub proof fn lemma_level_data_names_listed()
    ensures
        level_data_names().contains("musicProgress"@),
        level_data_names().contains("ambienceProgress"@),
        level_data_names().contains("x"@),
        level_data_names().contains("y"@),
        level_data_names().contains("width"@),
        level_data_names().contains("height"@),
        level_data_names().contains("musicLayer1"@),
        level_data_names().contains("musicLayer2"@),
        level_data_names().contains("musicLayer3"@),
        level_data_names().contains("musicLayer4"@),
        level_data_names().contains("underwater"@),
        level_data_names().contains("space"@),
        level_data_names().contains("disableDownTransition"@),
        level_data_names().contains("cameraOffsetX"@),
        level_data_names().contains("cameraOffsetY"@),
        level_data_names().contains("windPattern"@),
        level_data_names().contains("alt_music"@),
        level_data_names().contains("ambience"@),
        level_data_names().contains("delayAltMusicFade"@),
        level_data_names().contains("music"@),
        level_data_names().contains("c"@),
        level_data_names().contains("dark"@),
        level_data_names().contains("enforceDashNumber"@),
        level_data_names().contains("whisper"@),
        !level_data_names().contains("name"@),
{
    lemma_level_names();
}

/// A level that comes back from its element: what is read from the element
/// that stands for it is the level itself.
#[verifier::rlimit(30)]
pub proof fn lemma_level_round_trip(l: LevelView)
    requires
        level_comes_back(l),
    ensures
        level_of(element_of_level(l)) == Ok::<LevelView, LoadErrorView>(l),
{
    let e = element_of_level(l);
    let written = level_data_attrs(l.data, l.extra_data);
    let a = e.attributes;
    lemma_level_names();
    lemma_level_data_names_listed();
    assert(!l.extra_data.dom().contains("enforceDashNumber"@)) by {
        assert(level_names().contains("enforceDashNumber"@));
    }
    lemma_level_data_round_trip(l.data, l.extra_data);
    lemma_level_data_leaves_others(l.data, l.extra_data);
    assert(!level_data_names().contains("name"@));
    lemma_level_data_depends(a, written);
    lemma_level_parts_round_trip(l);
    assert(a.remove_keys(level_names()) =~= l.extra_data) by {
        assert(a.remove_keys(level_names()) =~= written.remove_keys(level_data_names()).remove(
            "name"@,
        ));
        assert(l.extra_data.remove_keys(level_data_names()) =~= l.extra_data);
        assert(!l.extra_data.dom().contains("name"@)) by {
            assert(level_names().contains("name"@));
        }
    }
    reveal_strlit("level");
}

/// Whether a name is that of a child which holds a part of a map.
pub open spec fn is_map_part_name(name: Seq<char>) -> bool {
    name == "Filler"@ || name == "Style"@ || name == "levels"@
}

/// The names of the children that hold the parts of a map, and of the
/// children of its style, differ in shape.
pub proof fn lemma_map_part_names()
    ensures
        shape("Filler"@) == (6nat, 'F', 'r'),
        shape("Style"@) == (5nat, 'S', 'e'),
        shape("levels"@) == (6nat, 'l', 's'),
        shape("Foregrounds"@) == (11nat, 'F', 's'),
        shape("Backgrounds"@) == (11nat, 'B', 's'),
{
    reveal_strlit("Filler");
    reveal_strlit("Style");
    reveal_strlit("levels");
    reveal_strlit("Foregrounds");
    reveal_strlit("Backgrounds");
}

/// The parts of a map as the map holds them.
pub open spec fn map_parts_of(m: MapDataView) -> MapParts {
    MapParts {
        filler: m.filler,
        levels: m.levels,
        foregrounds: m.foregrounds,
        backgrounds: m.backgrounds,
        bg_color: m.bg_color,
        extra_children: m.extra_children,
    }
}

/// Parts of a map as they are read from the children of its element.
pub open spec fn sound_map_parts(parts: MapParts) -> bool {
    &&& forall|i: int| 0 <= i < parts.levels.len() ==> sound_level(#[trigger] parts.levels[i])
    &&& forall|i: int|
        0 <= i < parts.extra_children.len() ==> !is_map_part_name(
            (#[trigger] parts.extra_children[i]).name,
        )
    &&& parts.bg_color is Some ==> parts.bg_color->Some_0.len() == 4
}

/// A map as it is read from an element: its levels are sound, its color has
/// four bytes, and it keeps nothing that it would take for its own.
pub open spec fn sound_map(m: MapDataView) -> bool {
    &&& !m.extra_data.dom().contains("_package"@)
    &&& sound_map_parts(map_parts_of(m))
}

/// A map that comes back from its element: a sound one whose levels come
/// back.
pub open spec fn map_comes_back(m: MapDataView) -> bool {
    &&& sound_map(m)
    &&& forall|i: int| 0 <= i < m.levels.len() ==> level_comes_back(#[trigger] m.levels[i])
}

/// The levels that are read from elements are sound.
pub proof fn lemma_levels_read_sound(elements: Seq<ElementView>)
    requires
        read_each::<Level>(elements) is Ok,
    ensures
        forall|i: int|
            0 <= i < read_each::<Level>(elements)->Ok_0.len() ==> sound_level(
                #[trigger] read_each::<Level>(elements)->Ok_0[i],
            ),
{
    let results = elements.map_values(|e: ElementView| Level::spec_read(e));
    let read = read_each::<Level>(elements)->Ok_0;
    assert forall|i: int| 0 <= i < read.len() implies sound_level(#[trigger] read[i]) by {
        lemma_collect_each(results, 0);
        lemma_collect_each(results, i);
        assert(results[i] == level_of(elements[i]));
        lemma_level_read_sound(elements[i]);
    }
}

/// One more child leaves sound parts of a map sound.
pub proof fn lemma_with_map_child_sound(parts: MapParts, child: ElementView)
    requires
        sound_map_parts(parts),
        with_map_child(parts, child) is Ok,
    ensures
        sound_map_parts(with_map_child(parts, child)->Ok_0),
{
    let next = with_map_child(parts, child)->Ok_0;
    if child.name == "Filler"@ {
    } else if child.name == "Style"@ {
    } else if child.name == "levels"@ {
        lemma_levels_read_sound(child.children);
    } else {
        assert forall|i: int| 0 <= i < next.extra_children.len() implies !is_map_part_name(
            (#[trigger] next.extra_children[i]).name,
        ) by {
            if i < parts.extra_children.len() {
                assert(next.extra_children[i] == parts.extra_children[i]);
            }
        }
    }
}

/// The parts that are read from the children of a map's element are sound.
pub proof fn lemma_map_parts_sound(children: Seq<ElementView>)
    requires
        map_parts(children) is Ok,
    ensures
        sound_map_parts(map_parts(children)->Ok_0),
    decreases children.len(),
{
    if children.len() > 0 {
        lemma_map_parts_sound(children.drop_last());
        lemma_with_map_child_sound(map_parts(children.drop_last())->Ok_0, children.last());
    }
}

/// The map that is read from an element is sound.
pub proof fn lemma_map_read_sound(e: ElementView)
    requires
        map_of(e) is Ok,
    ensures
        sound_map(map_of(e)->Ok_0),
{
    lemma_map_parts_sound(e.children);
    assert(map_parts_of(map_of(e)->Ok_0) == map_parts(e.children)->Ok_0);
}

/// Children none of which holds a part of a map are all kept.
pub proof fn lemma_map_parts_kept(children: Seq<ElementView>)
    requires
        forall|i: int| 0 <= i < children.len() ==> !is_map_part_name((#[trigger] children[i]).name),
    ensures
        map_parts(children) == Ok::<MapParts, LoadErrorView>(
            MapParts { extra_children: children, ..no_map_parts() },
        ),
    decreases children.len(),
{
    if children.len() == 0 {
        assert(children =~= Seq::empty());
    } else {
        let front = children.drop_last();
        assert forall|i: int| 0 <= i < front.len() implies !is_map_part_name(
            (#[trigger] front[i]).name,
        ) by {
            assert(front[i] == children[i]);
        }
        lemma_map_parts_kept(front);
        assert(!is_map_part_name(children[children.len() - 1].name));
        assert(front.push(children.last()) =~= children);
    }
}

/// One more child behind children of a map that were read.
pub proof fn lemma_map_parts_push(children: Seq<ElementView>, child: ElementView)
    requires
        map_parts(children) is Ok,
    ensures
        map_parts(children.push(child)) == with_map_child(map_parts(children)->Ok_0, child),
{
    assert(children.push(child).drop_last() == children);
}

/// What the style of a map makes of the parts of a map.
pub proof fn lemma_with_own_style(parts: MapParts, m: MapDataView)
    requires
        m.bg_color is Some ==> m.bg_color->Some_0.len() == 4,
    ensures
        with_map_child(parts, style_element(m)) == Ok::<MapParts, LoadErrorView>(
            MapParts {
                bg_color: m.bg_color,
                foregrounds: m.foregrounds,
                backgrounds: m.backgrounds,
                ..parts
            },
        ),
{
    lemma_map_part_names();
    lemma_decal_names();
    let style = style_element(m);
    let grounds = style.children;
    assert(grounds.drop_last() =~= seq![group("Foregrounds"@, m.foregrounds)]);
    assert(grounds.drop_last().last() == group("Foregrounds"@, m.foregrounds));
    assert(last_named(grounds, "Backgrounds"@, parts.backgrounds) == m.backgrounds);
    assert(last_named(grounds.drop_last(), "Foregrounds"@, parts.foregrounds) == m.foregrounds);
    assert(last_named(grounds, "Foregrounds"@, parts.foregrounds) == m.foregrounds);
    if m.bg_color is Some {
        lemma_color_round_trip(m.bg_color->Some_0);
    }
}

/// What the fillers and the levels of a map make of the parts of a map.
pub proof fn lemma_with_own_lists(parts: MapParts, m: MapDataView)
    requires
        forall|i: int| 0 <= i < m.levels.len() ==> level_comes_back(#[trigger] m.levels[i]),
    ensures
        with_map_child(parts, group("Filler"@, write_each::<Filler>(m.filler))) == Ok::<
            MapParts,
            LoadErrorView,
        >(MapParts { filler: m.filler, ..parts }),
        with_map_child(parts, group("levels"@, write_each::<Level>(m.levels))) == Ok::<
            MapParts,
            LoadErrorView,
        >(MapParts { levels: m.levels, ..parts }),
{
    lemma_map_part_names();
    assert forall|i: int| 0 <= i < m.filler.len() implies Filler::spec_read(
        Filler::spec_write(#[trigger] m.filler[i]),
    ) == Ok::<Filler, LoadErrorView>(m.filler[i]) by {
        lemma_filler_round_trip(m.filler[i]);
    }
    lemma_read_each_round_trip::<Filler>(m.filler);
    assert forall|i: int| 0 <= i < m.levels.len() implies Level::spec_read(
        Level::spec_write(#[trigger] m.levels[i]),
    ) == Ok::<LevelView, LoadErrorView>(m.levels[i]) by {
        lemma_level_round_trip(m.levels[i]);
    }
    lemma_read_each_round_trip::<Level>(m.levels);
}

/// A map that comes back from its element: what is read from the element
/// that stands for it is the map itself.
#[verifier::rlimit(30)]
pub proof fn lemma_map_round_trip(m: MapDataView)
    requires
        map_comes_back(m),
    ensures
        map_of(element_of_map(m)) == Ok::<MapDataView, LoadErrorView>(m),
{
    let e = element_of_map(m);
    let parts = map_parts_of(m);
    assert(sound_map_parts(parts));
    assert forall|i: int| 0 <= i < m.extra_children.len() implies !is_map_part_name(
        (#[trigger] m.extra_children[i]).name,
    ) by {
        assert(!is_map_part_name(parts.extra_children[i].name));
    }
    let s0 = m.extra_children;
    let held0 = MapParts { extra_children: s0, ..no_map_parts() };
    lemma_map_parts_kept(s0);
    let filler = group("Filler"@, write_each::<Filler>(m.filler));
    let levels = group("levels"@, write_each::<Level>(m.levels));
    let s1 = s0.push(filler);
    let held1 = MapParts { filler: m.filler, ..held0 };
    lemma_map_parts_push(s0, filler);
    lemma_with_own_lists(held0, m);
    let s2 = s1.push(style_element(m));
    let held2 = MapParts {
        bg_color: m.bg_color,
        foregrounds: m.foregrounds,
        backgrounds: m.backgrounds,
        ..held1
    };
    lemma_map_parts_push(s1, style_element(m));
    lemma_with_own_style(held1, m);
    let s3 = s2.push(levels);
    let held3 = MapParts { levels: m.levels, ..held2 };
    lemma_map_parts_push(s2, levels);
    lemma_with_own_lists(held2, m);
    assert(s3 =~= e.children);
    assert(held3 == parts);
    assert(e.attributes.remove("_package"@) =~= m.extra_data);
    reveal_strlit("Map");
}

/// An entity without a width and a height is written without them, and an
/// element without them is read as an entity without them.
pub proof fn lemma_entity_without_size(en: EntityView, e: ElementView)
    requires
        sound_entity(en),
        en.width is None,
        en.height is None,
        !e.attributes.dom().contains("width"@),
        !e.attributes.dom().contains("height"@),
        entity_of(e) is Ok,
    ensures
        !element_of_entity(en).attributes.dom().contains("width"@),
        !element_of_entity(en).attributes.dom().contains("height"@),
        entity_of(e)->Ok_0.width is None,
        entity_of(e)->Ok_0.height is None,
{
    lemma_entity_names();
    assert(entity_names().contains("width"@));
    assert(entity_names().contains("height"@));
}

/// An empty text for the progress of the music is read as no progress, and
/// no progress is written as an empty text.
pub proof fn lemma_absent_progress(d: LevelDataView, base: Map<Seq<char>, ValueView>, a: Map<Seq<char>, ValueView>)
    requires
        d.music_progress is None,
        a.dom().contains("musicProgress"@),
        a["musicProgress"@] == ValueView::String(Seq::empty()),
    ensures
        level_data_attrs(d, base)["musicProgress"@] == ValueView::String(Seq::empty()),
        level_data_attrs(d, base).dom().contains("musicProgress"@),
        level_data_of(a).music_progress is None,
        progress_error(a, "musicProgress"@) is None,
{
    lemma_level_names();
}

} // verus!
