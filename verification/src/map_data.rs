//! The typed objects of a map: the map itself, its levels, and what a level
//! holds.

use vstd::prelude::*;
use crate::element::{
    clone_elements, element_views, Attributes, Element, ElementView, ValueView,
};
use crate::float::Float32;
use crate::tilemap::{Grid, Tilemap, TilemapCell};

verus! {

/// A custom map.
#[derive(Debug, PartialEq)]
#[allow(missing_docs)]
pub struct MapData {
    pub package: String,
    pub filler: Vec<Filler>,
    pub levels: Vec<Level>,
    pub foregrounds: Vec<Element>,
    pub backgrounds: Vec<Element>,
    pub bg_color: Option<[u8; 4]>,
    pub extra_data: Attributes,
    pub extra_children: Vec<Element>,
}

/// A filler rectangle.
#[derive(Debug, Clone, Copy, PartialEq, Eq, PartialOrd, Ord, Hash)]
#[allow(missing_docs)]
pub struct Filler {
    pub position: (i32, i32),
    pub size: (i32, i32),
}

/// A single level within a map.
#[derive(Debug, PartialEq)]
#[allow(missing_docs)]
pub struct Level {
    pub name: String,
    pub data: LevelData,
    pub entities: Vec<Entity>,
    pub triggers: Vec<Entity>,
    pub bg_decals: Vec<Decal>,
    pub fg_decals: Vec<Decal>,
    pub bg: Tilemap<char>,
    pub bg_tiles: Tilemap<i32>,
    pub fg_tiles: Tilemap<i32>,
    pub obj_tiles: Tilemap<i32>,
    pub solids: Tilemap<char>,
    pub extra_data: Attributes,
    pub extra_children: Vec<Element>,
}

/// A struct that holds the (large amount of) metadata within a [`Level`].
#[derive(Debug, PartialEq, Eq, PartialOrd, Ord, Hash)]
#[allow(missing_docs)]
pub struct LevelData {
    pub position: (i32, i32),
    pub size: (i32, i32),
    pub music_layers: [bool; 4],
    pub underwater: bool,
    pub space: bool,
    pub disable_down_transition: bool,
    pub music_progress: Option<i32>,
    pub camera_offset: (i32, i32),
    pub wind_pattern: String,
    pub ambience_progress: Option<i32>,
    pub alt_music: String,
    pub ambience: String,
    pub delay_alt_music_fade: bool,
    pub music: String,
    pub color: i32,
    pub dark: bool,
    pub enforce_dash_number: Option<i32>,
    pub whisper: bool,
}

/// An entity inside a [`Level`].
#[derive(Debug, PartialEq)]
#[allow(missing_docs)]
pub struct Entity {
    pub name: String,
    pub id: i32,
    pub position: (Float32, Float32),
    pub width: Option<i32>,
    pub height: Option<i32>,
    pub origin: (Float32, Float32),
    pub nodes: Vec<(Float32, Float32)>,
    pub values: Attributes,
}

/// A decal inside a [`Level`].
#[derive(Debug, PartialEq)]
#[allow(missing_docs)]
pub struct Decal {
    pub position: (Float32, Float32),
    pub scale: (Float32, Float32),
    pub texture: String,
    pub color: [u8; 4],
    pub depth: i32,
    pub rotation: Float32,
}

/// What a [`Decal`] holds.
pub ghost struct DecalView {
    pub position: (Float32, Float32),
    pub scale: (Float32, Float32),
    pub texture: Seq<char>,
    pub color: Seq<u8>,
    pub depth: i32,
    pub rotation: Float32,
}

impl View for Decal {
    type V = DecalView;

    open spec fn view(&self) -> DecalView {
        DecalView {
            position: self.position,
            scale: self.scale,
            texture: self.texture@,
            color: self.color@,
            depth: self.depth,
            rotation: self.rotation,
        }
    }
}

/// What an [`Entity`] holds.
pub ghost struct EntityView {
    pub name: Seq<char>,
    pub id: i32,
    pub position: (Float32, Float32),
    pub width: Option<i32>,
    pub height: Option<i32>,
    pub origin: (Float32, Float32),
    pub nodes: Seq<(Float32, Float32)>,
    pub values: Map<Seq<char>, ValueView>,
}

impl View for Entity {
    type V = EntityView;

    open spec fn view(&self) -> EntityView {
        EntityView {
            name: self.name@,
            id: self.id,
            position: self.position,
            width: self.width,
            height: self.height,
            origin: self.origin,
            nodes: self.nodes@,
            values: self.values@,
        }
    }
}

/// What a [`LevelData`] holds.
pub ghost struct LevelDataView {
    pub position: (i32, i32),
    pub size: (i32, i32),
    pub music_layers: Seq<bool>,
    pub underwater: bool,
    pub space: bool,
    pub disable_down_transition: bool,
    pub music_progress: Option<i32>,
    pub camera_offset: (i32, i32),
    pub wind_pattern: Seq<char>,
    pub ambience_progress: Option<i32>,
    pub alt_music: Seq<char>,
    pub ambience: Seq<char>,
    pub delay_alt_music_fade: bool,
    pub music: Seq<char>,
    pub color: i32,
    pub dark: bool,
    pub enforce_dash_number: Option<i32>,
    pub whisper: bool,
}

impl View for LevelData {
    type V = LevelDataView;

    open spec fn view(&self) -> LevelDataView {
        LevelDataView {
            position: self.position,
            size: self.size,
            music_layers: self.music_layers@,
            underwater: self.underwater,
            space: self.space,
            disable_down_transition: self.disable_down_transition,
            music_progress: self.music_progress,
            camera_offset: self.camera_offset,
            wind_pattern: self.wind_pattern@,
            ambience_progress: self.ambience_progress,
            alt_music: self.alt_music@,
            ambience: self.ambience@,
            delay_alt_music_fade: self.delay_alt_music_fade,
            music: self.music@,
            color: self.color,
            dark: self.dark,
            enforce_dash_number: self.enforce_dash_number,
            whisper: self.whisper,
        }
    }
}

impl Default for Filler {
    fn default() -> (r: Filler)
        ensures
            r == (Filler { position: (0, 0), size: (0, 0) }),
    {
        Filler { position: (0, 0), size: (0, 0) }
    }
}

impl Default for Decal {
    fn default() -> (r: Decal)
        ensures
            r@ == (DecalView {
                position: (Float32 { bits: 0 }, Float32 { bits: 0 }),
                scale: (Float32 { bits: 0 }, Float32 { bits: 0 }),
                texture: Seq::empty(),
                color: seq![0u8, 0u8, 0u8, 0u8],
                depth: 0,
                rotation: Float32 { bits: 0 },
            }),
    {
        let r = Decal {
            position: (Float32::zero(), Float32::zero()),
            scale: (Float32::zero(), Float32::zero()),
            texture: String::new(),
            color: [0, 0, 0, 0],
            depth: 0,
            rotation: Float32::zero(),
        };
        assert(r@.color =~= seq![0u8, 0u8, 0u8, 0u8]);
        r
    }
}

impl Default for Entity {
    fn default() -> (r: Entity)
        ensures
            r@ == (EntityView {
                name: Seq::empty(),
                id: 0,
                position: (Float32 { bits: 0 }, Float32 { bits: 0 }),
                width: None,
                height: None,
                origin: (Float32 { bits: 0 }, Float32 { bits: 0 }),
                nodes: Seq::empty(),
                values: Map::empty(),
            }),
    {
        Entity {
            name: String::new(),
            id: 0,
            position: (Float32::zero(), Float32::zero()),
            width: None,
            height: None,
            origin: (Float32::zero(), Float32::zero()),
            nodes: Vec::new(),
            values: Attributes::new(),
        }
    }
}

impl Default for LevelData {
    fn default() -> (r: LevelData)
        ensures
            r@ == LevelDataView::blank(0, 0),
    {
        LevelData::with_size(0, 0)
    }
}

impl Default for Level {
    fn default() -> (r: Level)
        ensures
            r@ == LevelView::blank(Seq::empty(), 0, 0),
    {
        let r = Level {
            name: String::new(),
            data: LevelData::with_size(0, 0),
            entities: Vec::new(),
            triggers: Vec::new(),
            bg_decals: Vec::new(),
            fg_decals: Vec::new(),
            bg: Tilemap::default(),
            bg_tiles: Tilemap::default(),
            fg_tiles: Tilemap::default(),
            obj_tiles: Tilemap::default(),
            solids: Tilemap::default(),
            extra_data: Attributes::new(),
            extra_children: Vec::new(),
        };
        assert(r@.entities =~= Seq::empty());
        assert(r@.triggers =~= Seq::empty());
        assert(r@.bg_decals =~= Seq::empty());
        assert(r@.fg_decals =~= Seq::empty());
        assert(r@.extra_children =~= Seq::empty());
        r
    }
}

impl Default for MapData {
    fn default() -> (r: MapData)
        ensures
            r@ == (MapDataView {
                package: Seq::empty(),
                filler: Seq::empty(),
                levels: Seq::empty(),
                foregrounds: Seq::empty(),
                backgrounds: Seq::empty(),
                bg_color: None,
                extra_data: Map::empty(),
                extra_children: Seq::empty(),
            }),
    {
        let r = MapData {
            package: String::new(),
            filler: Vec::new(),
            levels: Vec::new(),
            foregrounds: Vec::new(),
            backgrounds: Vec::new(),
            bg_color: None,
            extra_data: Attributes::new(),
            extra_children: Vec::new(),
        };
        assert(r@.filler =~= Seq::empty());
        assert(r@.levels =~= Seq::empty());
        assert(r@.foregrounds =~= Seq::empty());
        assert(r@.backgrounds =~= Seq::empty());
        assert(r@.extra_children =~= Seq::empty());
        r
    }
}

impl Clone for Decal {
    fn clone(&self) -> (r: Decal)
        ensures
            r@ == self@,
    {
        Decal {
            position: self.position,
            scale: self.scale,
            texture: self.texture.clone(),
            color: self.color,
            depth: self.depth,
            rotation: self.rotation,
        }
    }
}

impl Clone for Entity {
    fn clone(&self) -> (r: Entity)
        ensures
            r@ == self@,
    {
        let mut nodes: Vec<(Float32, Float32)> = Vec::new();
        let mut i: usize = 0;
        while i < self.nodes.len()
            invariant
                i <= self.nodes.len(),
                nodes@ == self.nodes@.take(i as int),
            decreases self.nodes.len() - i,
        {
            nodes.push(self.nodes[i]);
            i += 1;
        }
        assert(self.nodes@.take(self.nodes.len() as int) == self.nodes@);
        Entity {
            name: self.name.clone(),
            id: self.id,
            position: self.position,
            width: self.width,
            height: self.height,
            origin: self.origin,
            nodes,
            values: self.values.clone(),
        }
    }
}

impl Clone for Level {
    fn clone(&self) -> (r: Level)
        ensures
            r@ == self@,
    {
        let r = Level {
            name: self.name.clone(),
            data: self.data.clone(),
            entities: self.entities.clone(),
            triggers: self.triggers.clone(),
            bg_decals: self.bg_decals.clone(),
            fg_decals: self.fg_decals.clone(),
            bg: self.bg.clone(),
            bg_tiles: self.bg_tiles.clone(),
            fg_tiles: self.fg_tiles.clone(),
            obj_tiles: self.obj_tiles.clone(),
            solids: self.solids.clone(),
            extra_data: self.extra_data.clone(),
            extra_children: clone_elements(&self.extra_children),
        };
        assert(views(r.entities@) =~= views(self.entities@));
        assert(views(r.triggers@) =~= views(self.triggers@));
        assert(views(r.bg_decals@) =~= views(self.bg_decals@));
        assert(views(r.fg_decals@) =~= views(self.fg_decals@));
        r
    }
}

impl Clone for MapData {
    fn clone(&self) -> (r: MapData)
        ensures
            r@ == self@,
    {
        let r = MapData {
            package: self.package.clone(),
            filler: self.filler.clone(),
            levels: self.levels.clone(),
            foregrounds: clone_elements(&self.foregrounds),
            backgrounds: clone_elements(&self.backgrounds),
            bg_color: self.bg_color,
            extra_data: self.extra_data.clone(),
            extra_children: clone_elements(&self.extra_children),
        };
        assert(views(r.filler@) =~= views(self.filler@));
        assert(views(r.levels@) =~= views(self.levels@));
        r
    }
}

impl Clone for LevelData {
    fn clone(&self) -> (r: LevelData)
        ensures
            r@ == self@,
    {
        LevelData {
            position: self.position,
            size: self.size,
            music_layers: self.music_layers,
            underwater: self.underwater,
            space: self.space,
            disable_down_transition: self.disable_down_transition,
            music_progress: self.music_progress,
            camera_offset: self.camera_offset,
            wind_pattern: self.wind_pattern.clone(),
            ambience_progress: self.ambience_progress,
            alt_music: self.alt_music.clone(),
            ambience: self.ambience.clone(),
            delay_alt_music_fade: self.delay_alt_music_fade,
            music: self.music.clone(),
            color: self.color,
            dark: self.dark,
            enforce_dash_number: self.enforce_dash_number,
            whisper: self.whisper,
        }
    }
}

impl View for Filler {
    type V = Filler;

    open spec fn view(&self) -> Filler {
        *self
    }
}

/// What each item of a sequence holds.
pub open spec fn views<T: View>(items: Seq<T>) -> Seq<T::V> {
    items.map_values(|item: T| item@)
}

/// What a [`Level`] holds.
pub ghost struct LevelView {
    pub name: Seq<char>,
    pub data: LevelDataView,
    pub entities: Seq<EntityView>,
    pub triggers: Seq<EntityView>,
    pub bg_decals: Seq<DecalView>,
    pub fg_decals: Seq<DecalView>,
    pub bg: Grid<char>,
    pub bg_tiles: Grid<i32>,
    pub fg_tiles: Grid<i32>,
    pub obj_tiles: Grid<i32>,
    pub solids: Grid<char>,
    pub extra_data: Map<Seq<char>, ValueView>,
    pub extra_children: Seq<ElementView>,
}

impl View for Level {
    type V = LevelView;

    open spec fn view(&self) -> LevelView {
        LevelView {
            name: self.name@,
            data: self.data@,
            entities: views(self.entities@),
            triggers: views(self.triggers@),
            bg_decals: views(self.bg_decals@),
            fg_decals: views(self.fg_decals@),
            bg: self.bg@,
            bg_tiles: self.bg_tiles@,
            fg_tiles: self.fg_tiles@,
            obj_tiles: self.obj_tiles@,
            solids: self.solids@,
            extra_data: self.extra_data@,
            extra_children: element_views(self.extra_children@),
        }
    }
}

/// What a [`MapData`] holds.
pub ghost struct MapDataView {
    pub package: Seq<char>,
    pub filler: Seq<Filler>,
    pub levels: Seq<LevelView>,
    pub foregrounds: Seq<ElementView>,
    pub backgrounds: Seq<ElementView>,
    pub bg_color: Option<Seq<u8>>,
    pub extra_data: Map<Seq<char>, ValueView>,
    pub extra_children: Seq<ElementView>,
}

impl View for MapData {
    type V = MapDataView;

    open spec fn view(&self) -> MapDataView {
        MapDataView {
            package: self.package@,
            filler: views(self.filler@),
            levels: views(self.levels@),
            foregrounds: element_views(self.foregrounds@),
            backgrounds: element_views(self.backgrounds@),
            bg_color: match self.bg_color {
                Some(color) => Some(color@),
                None => None,
            },
            extra_data: self.extra_data@,
            extra_children: element_views(self.extra_children@),
        }
    }
}

impl LevelData {
    /// The data of a level of the given size at the origin, with nothing
    /// else set.
    pub fn with_size(width: i32, height: i32) -> (r: LevelData)
        ensures
            r@ == LevelDataView::blank(width, height),
    {
        LevelData {
            position: (0, 0),
            size: (width, height),
            music_layers: [false, false, false, false],
            underwater: false,
            space: false,
            disable_down_transition: false,
            music_progress: None,
            camera_offset: (0, 0),
            wind_pattern: String::new(),
            ambience_progress: None,
            alt_music: String::new(),
            ambience: String::new(),
            delay_alt_music_fade: false,
            music: String::new(),
            color: 0,
            dark: false,
            enforce_dash_number: None,
            whisper: false,
        }
    }
}

impl LevelDataView {
    /// The data of a level of the given size at the origin, with nothing
    /// else set.
    pub open spec fn blank(width: i32, height: i32) -> LevelDataView {
        LevelDataView {
            position: (0, 0),
            size: (width, height),
            music_layers: seq![false, false, false, false],
            underwater: false,
            space: false,
            disable_down_transition: false,
            music_progress: None,
            camera_offset: (0, 0),
            wind_pattern: Seq::empty(),
            ambience_progress: None,
            alt_music: Seq::empty(),
            ambience: Seq::empty(),
            delay_alt_music_fade: false,
            music: Seq::empty(),
            color: 0,
            dark: false,
            enforce_dash_number: None,
            whisper: false,
        }
    }
}

/// What resizing makes of a grid: first the width is set, then the height.
/// Either step is refused, and ends the resizing, where the grid would get
/// more cells than a [`usize`] counts. The result is the grid and whether
/// both steps were made.
pub open spec fn resized<T>(g: Grid<T>, width: nat, height: nat, empty: T) -> (Grid<T>, bool) {
    let wide = g.reshaped(width, g.height, empty);
    if width * g.height > usize::MAX {
        (g, false)
    } else if width * height > usize::MAX {
        (wide, false)
    } else {
        (wide.reshaped(width, height, empty), true)
    }
}

/// Sets the width and then the height of a tilemap.
fn resize_tilemap<T: TilemapCell>(map: &mut Tilemap<T>, width: usize, height: usize) -> (r: bool)
    ensures
        final(map)@ == resized(old(map)@, width as nat, height as nat, T::spec_empty()).0,
        r == resized(old(map)@, width as nat, height as nat, T::spec_empty()).1,
{
    map.set_width(width) && map.set_height(height)
}

impl Level {
    /// Creates a new instance of a level: empty tilemaps of the given size,
    /// and nothing else.
    ///
    /// Returns [`None`] if width or height are less than 0 or cause overflow.
    ///
    /// Note: The level format keeps these fields as `i32`, so they are `i32`
    /// here as well.
    pub fn new(name: String, width: i32, height: i32) -> (r: Option<Level>)
        ensures
            r is Some <==> width >= 0 && height >= 0 && width * height <= usize::MAX,
            r is Some ==> r->Some_0@ == LevelView::blank(name@, width, height),
    {
        if !(width >= 0 && height >= 0) {
            return None;
        }
        let w = width as usize;
        let h = height as usize;
        let bg = match Tilemap::<char>::new(w, h) {
            Some(map) => map,
            None => {
                return None;
            },
        };
        let solids = match Tilemap::<char>::new(w, h) {
            Some(map) => map,
            None => {
                return None;
            },
        };
        let bg_tiles = match Tilemap::<i32>::new(w, h) {
            Some(map) => map,
            None => {
                return None;
            },
        };
        let fg_tiles = match Tilemap::<i32>::new(w, h) {
            Some(map) => map,
            None => {
                return None;
            },
        };
        let obj_tiles = match Tilemap::<i32>::new(w, h) {
            Some(map) => map,
            None => {
                return None;
            },
        };
        let r = Level {
            name,
            data: LevelData::with_size(width, height),
            entities: Vec::new(),
            triggers: Vec::new(),
            bg_decals: Vec::new(),
            fg_decals: Vec::new(),
            bg,
            bg_tiles,
            fg_tiles,
            obj_tiles,
            solids,
            extra_data: Attributes::new(),
            extra_children: Vec::new(),
        };
        assert(r@.entities =~= Seq::empty());
        assert(r@.triggers =~= Seq::empty());
        assert(r@.bg_decals =~= Seq::empty());
        assert(r@.fg_decals =~= Seq::empty());
        assert(r@.extra_children =~= Seq::empty());
        Some(r)
    }

    /// Resizes the Level, also resizing its tilemaps: first the background,
    /// then the solids, the object tiles, the foreground tiles and the
    /// background tiles, each in width and then in height. The first step
    /// that a tilemap refuses ends the resizing; the steps before it stay
    /// made.
    ///
    /// Returns false if width or height are less than 0, or overflow occurs.
    /// The size in the level's data is set when the result is true.
    pub fn resize(&mut self, width: i32, height: i32) -> (r: bool)
        ensures
            final(self)@ == old(self)@.resized(width, height).0,
            r == old(self)@.resized(width, height).1,
    {
        if width < 0 || height < 0 {
            return false;
        }
        let w = width as usize;
        let h = height as usize;
        if !resize_tilemap(&mut self.bg, w, h) {
            return false;
        }
        if !resize_tilemap(&mut self.solids, w, h) {
            return false;
        }
        if !resize_tilemap(&mut self.obj_tiles, w, h) {
            return false;
        }
        if !resize_tilemap(&mut self.fg_tiles, w, h) {
            return false;
        }
        if !resize_tilemap(&mut self.bg_tiles, w, h) {
            return false;
        }
        self.data.size = (width, height);
        true
    }
}

impl LevelView {
    /// A level with empty tilemaps of the given size and nothing else.
    pub open spec fn blank(name: Seq<char>, width: i32, height: i32) -> LevelView {
        LevelView {
            name,
            data: LevelDataView::blank(width, height),
            entities: Seq::empty(),
            triggers: Seq::empty(),
            bg_decals: Seq::empty(),
            fg_decals: Seq::empty(),
            bg: Grid::filled(width as nat, height as nat, '0'),
            bg_tiles: Grid::filled(width as nat, height as nat, -1i32),
            fg_tiles: Grid::filled(width as nat, height as nat, -1i32),
            obj_tiles: Grid::filled(width as nat, height as nat, -1i32),
            solids: Grid::filled(width as nat, height as nat, '0'),
            extra_data: Map::empty(),
            extra_children: Seq::empty(),
        }
    }

    /// What resizing makes of a level, and whether it went through. The
    /// tilemaps are resized one after another: background, solids, object
    /// tiles, foreground tiles, background tiles. The first that refuses a
    /// step ends the resizing. Only when all went through is the size in the
    /// level's data set.
    pub open spec fn resized(self, width: i32, height: i32) -> (LevelView, bool) {
        let w = width as nat;
        let h = height as nat;
        let bg = resized(self.bg, w, h, '0');
        let solids = resized(self.solids, w, h, '0');
        let obj_tiles = resized(self.obj_tiles, w, h, -1i32);
        let fg_tiles = resized(self.fg_tiles, w, h, -1i32);
        let bg_tiles = resized(self.bg_tiles, w, h, -1i32);
        if width < 0 || height < 0 {
            (self, false)
        } else if !bg.1 {
            (LevelView { bg: bg.0, ..self }, false)
        } else if !solids.1 {
            (LevelView { bg: bg.0, solids: solids.0, ..self }, false)
        } else if !obj_tiles.1 {
            (LevelView { bg: bg.0, solids: solids.0, obj_tiles: obj_tiles.0, ..self }, false)
        } else if !fg_tiles.1 {
            (
                LevelView {
                    bg: bg.0,
                    solids: solids.0,
                    obj_tiles: obj_tiles.0,
                    fg_tiles: fg_tiles.0,
                    ..self
                },
                false,
            )
        } else if !bg_tiles.1 {
            (
                LevelView {
                    bg: bg.0,
                    solids: solids.0,
                    obj_tiles: obj_tiles.0,
                    fg_tiles: fg_tiles.0,
                    bg_tiles: bg_tiles.0,
                    ..self
                },
                false,
            )
        } else {
            (
                LevelView {
                    bg: bg.0,
                    solids: solids.0,
                    obj_tiles: obj_tiles.0,
                    fg_tiles: fg_tiles.0,
                    bg_tiles: bg_tiles.0,
                    data: LevelDataView { size: (width, height), ..self.data },
                    ..self
                },
                true,
            )
        }
    }
}

} // verus!
