//! Items: anything on a map that is not a road, a wall or a teleporter.

use vstd::prelude::*;
use crate::game::characters::{Controllable, ControllableType, Response, Token};
use crate::game::gamemap::GameMap;
use crate::text::{replace, replaced};

verus! {

/// The art of an item placed with the map maker's path `tile`: a few paths
/// of the map maker differ from the art's file names.
pub open spec fn item_art(tile: Seq<char>) -> Seq<char> {
    let t = replaced(tile, "structures"@, "statics"@);
    let t = replaced(t, "volcano"@, "volcano.1"@);
    replaced(t, "wiz/wyvern/hack/dungeon"@, "statics/well"@)
}

/// An item: art on one cell.
#[derive(Clone)]
pub struct Item {
    pub tile: String,
    pub index: u32,
}

impl Item {
    /// An item with the map maker's path `tile` on cell `index`.
    pub fn new(tile: String, index: u32) -> (r: Item)
        ensures
            r.tile@ == item_art(tile@),
            r.index == index,
    {
        proof {
            reveal_strlit("structures");
            reveal_strlit("volcano");
            reveal_strlit("wiz/wyvern/hack/dungeon");
        }
        let t = replace(tile.as_str(), "structures", "statics");
        let t = replace(t.as_str(), "volcano", "volcano.1");
        let t = replace(t.as_str(), "wiz/wyvern/hack/dungeon", "statics/well");
        Item { tile: t, index: index }
    }
}

impl Controllable for Item {
    open spec fn location(&self) -> u32 {
        self.index
    }

    open spec fn can_update(&self, width: u8, height: u8, len: nat) -> bool {
        true
    }

    open spec fn can_link(&self, width: u8, height: u8, len: nat) -> bool {
        true
    }

    open spec fn can_hurt(&self, damage: i32) -> bool {
        true
    }

    fn update(&mut self, width: u8, height: u8, blocked: &Vec<bool>) -> (r: Option<Vec<Response>>)
        ensures
            r is None,
            *final(self) == *old(self),
    {
        None
    }

    fn get_location(&self) -> (r: u32) {
        self.index
    }

    fn get_tile(&self) -> (r: String)
        ensures
            r@ == self.tile@,
    {
        self.tile.clone()
    }

    fn get_size(&self) -> (r: (u32, u32))
        ensures
            r == (1u32, 1u32),
    {
        (1, 1)
    }

    fn get_token(&self) -> (r: Option<Token>)
        ensures
            r is None,
    {
        None
    }

    fn get_hp(&self) -> (r: Option<i32>)
        ensures
            r is None,
    {
        None
    }

    fn set_location(&mut self, index: u32)
        ensures
            final(self).tile == old(self).tile,
    {
        self.index = index;
    }

    fn does_block_index(&self, index: u32) -> (r: bool)
        ensures
            r == (self.index == index),
    {
        self.index == index
    }

    fn is_visible(&self, map: &GameMap) -> (r: bool)
        ensures
            r,
    {
        true
    }

    fn hurt(&mut self, damage: i32)
        ensures
            *final(self) == *old(self),
    {
    }

    fn set_movement(&mut self, end: u32)
        ensures
            *final(self) == *old(self),
    {
    }

    fn push_command(&mut self, command: String)
        ensures
            *final(self) == *old(self),
    {
    }

    fn modify_connected_tiles(&mut self, width: u8, height: u8, objects: &Vec<bool>)
        ensures
            *final(self) == *old(self),
    {
    }

    fn get_type(&self) -> (r: ControllableType)
        ensures
            r == ControllableType::Item,
    {
        ControllableType::Item
    }

    fn get_viewport(&self) -> (r: (u8, u8))
        ensures
            r == (0u8, 0u8),
    {
        (0, 0)
    }
}

} // verus!
