//! The mark of the types that stand for a part of a map, and of the kinds
//! of tile.

use vstd::prelude::*;
use crate::map_data::{Decal, Entity, Filler, Level, MapData};

verus! {

/// A type that stands for a part of a map, or a kind of tile. Nothing
/// outside this crate can name this trait, so no other type can join them.
pub trait Sealed {

}

impl Sealed for MapData {

}

impl Sealed for Filler {

}

impl Sealed for Level {

}

impl Sealed for Entity {

}

impl Sealed for Decal {

}

impl Sealed for i32 {

}

impl Sealed for char {

}

} // verus!
