//! Teleporters: cells that send a player standing on them to another map.

use vstd::prelude::*;
use crate::game::characters::{Controllable, ControllableType, Response, Token};
use crate::game::gamemap::GameMap;

verus! {

/// A teleporter to `map`, landing at `(x, y)` unless the map's own start is
/// used.
#[derive(Clone)]
pub struct Teleporter {
    pub map: String,
    pub index: u32,
    pub use_default: bool,
    pub x: u8,
    pub y: u8,
}

impl Teleporter {
    pub fn new(map: String, index: u32, default: bool, x: u8, y: u8) -> (r: Teleporter)
        ensures
            r.map@ == map@,
            r.index == index,
            r.use_default == default,
            r.x == x,
            r.y == y,
    {
        Teleporter { map: map, index: index, use_default: default, x: x, y: y }
    }

    /// Where the player of connection `token` goes: the map's name and the
    /// landing cell, or `None` for the map's own start.
    pub fn teleport(&self, token: Token) -> (r: (Token, String, Option<(u8, u8)>))
        ensures
            r.0 == token,
            r.1@ == self.map@,
            r.2 == (if self.use_default { None } else { Some((self.x, self.y)) }),
    {
        if self.use_default {
            (token, self.map.clone(), None)
        } else {
            (token, self.map.clone(), Some((self.x, self.y)))
        }
    }
}

impl Controllable for Teleporter {
    open spec fn location(&self) -> u32 {
        self.index
    }

    open spec fn can_update(&self, width: u8, height: u8, len: nat) -> bool {
        true
    }

    open spec fn can_link(&self, width: u8, height: u8, len: nat) -> bool {
        true
    }

    open spec fn can_hurt(&self, damage: i32) -> bool {
        true
    }

    fn update(&mut self, width: u8, height: u8, blocked: &Vec<bool>) -> (r: Option<Vec<Response>>)
        ensures
            r is None,
            *final(self) == *old(self),
    {
        None
    }

    fn get_location(&self) -> (r: u32) {
        self.index
    }

    fn get_tile(&self) -> (r: String)
        ensures
            r@.len() == 0,
    {
        String::new()
    }

    fn get_size(&self) -> (r: (u32, u32))
        ensures
            r == (1u32, 1u32),
    {
        (1, 1)
    }

    fn get_token(&self) -> (r: Option<Token>)
        ensures
            r is None,
    {
        None
    }

    fn get_hp(&self) -> (r: Option<i32>)
        ensures
            r is None,
    {
        None
    }

    fn set_location(&mut self, index: u32)
        ensures
            final(self).map == old(self).map,
            final(self).use_default == old(self).use_default,
            final(self).x == old(self).x,
            final(self).y == old(self).y,
    {
        self.index = index;
    }

    fn does_block_index(&self, index: u32) -> (r: bool)
        ensures
            !r,
    {
        false
    }

    fn is_visible(&self, map: &GameMap) -> (r: bool)
        ensures
            !r,
    {
        false
    }

    fn hurt(&mut self, damage: i32)
        ensures
            *final(self) == *old(self),
    {
    }

    fn set_movement(&mut self, end: u32)
        ensures
            *final(self) == *old(self),
    {
    }

    fn push_command(&mut self, command: String)
        ensures
            *final(self) == *old(self),
    {
    }

    fn modify_connected_tiles(&mut self, width: u8, height: u8, objects: &Vec<bool>)
        ensures
            *final(self) == *old(self),
    {
    }

    fn get_type(&self) -> (r: ControllableType)
        ensures
            r == ControllableType::Teleporter,
    {
        ControllableType::Teleporter
    }

    fn get_viewport(&self) -> (r: (u8, u8))
        ensures
            r == (0u8, 0u8),
    {
        (0, 0)
    }
}

} // verus!
