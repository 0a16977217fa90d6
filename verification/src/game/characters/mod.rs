//! The things that stand on a map: roads and walls, items, players,
//! teleporters, projectiles and towers, and what they have in common.


pub mod connected;
pub mod item;
pub mod persona;
pub mod player;
pub mod projectile;
pub mod teleporter;
pub mod tower;

use vstd::prelude::*;
use crate::game::gamemap::GameMap;
pub use self::persona::{Character, Npc, NpcDelegate, Pc};

verus! {

/// Identifies the connection that controls a player.
pub type Token = usize;

/// A message for a connection: its token, the text style and the text.
pub type Response = (Token, u8, String);

/// The direction a moving object last went; it picks the art to draw.
#[derive(Clone, Copy, PartialEq, Eq, Structural, Debug)]
pub enum Direction {
    All,
    North,
    South,
    East,
    West,
    NorthWest,
    NorthEast,
    SouthWest,
    SouthEast,
}

/// What kind of object a map object is.
#[derive(Clone, Copy, PartialEq, Eq, Structural, Debug)]
pub enum ControllableType {
    Road,
    Wall,
    Player,
    Item,
    Teleporter,
}

/// What every object on a map can do. The map updates each object once per
/// tick, draws it, and asks it whether it blocks a cell.
pub trait Controllable {
    /// The cell the object stands on.
    spec fn location(&self) -> u32;

    /// An update on a grid `width` by `height` with a list of `len` blocked
    /// flags runs without a fault (a player must be able to read its next
    /// command, and stand on the grid when that is a step to a cell of it).
    spec fn can_update(&self, width: u8, height: u8, len: nat) -> bool;

    /// Adapting the art to a list of `len` flags runs without a fault.
    spec fn can_link(&self, width: u8, height: u8, len: nat) -> bool;

    /// Taking `damage` stays within the range of the hit points.
    spec fn can_hurt(&self, damage: i32) -> bool;

    /// Called every tick; gives back the messages for connections, if any.
    fn update(&mut self, width: u8, height: u8, blocked: &Vec<bool>) -> Option<Vec<Response>>
        requires
            old(self).can_update(width, height, blocked@.len()),
    ;

    /// The cell the object stands on.
    fn get_location(&self) -> (r: u32)
        ensures
            r == self.location(),
    ;

    /// The art to draw.
    fn get_tile(&self) -> String;

    /// The size in cells.
    fn get_size(&self) -> (u32, u32);

    /// The connection that controls the object, for players.
    fn get_token(&self) -> Option<Token>;

    /// Hit points, for objects that have them.
    fn get_hp(&self) -> Option<i32>;

    /// Moves the object to a cell.
    fn set_location(&mut self, index: u32)
        ensures
            final(self).location() == index,
    ;

    /// Whether the object keeps others off the cell `index`.
    fn does_block_index(&self, index: u32) -> bool;

    /// Whether the object is drawn.
    fn is_visible(&self, map: &GameMap) -> bool;

    /// Takes `damage` off the hit points.
    fn hurt(&mut self, damage: i32)
        requires
            old(self).can_hurt(damage),
    ;

    /// Sets the cell the object should move to.
    fn set_movement(&mut self, end: u32);

    /// Queues a command from the connection.
    fn push_command(&mut self, command: String);

    /// Adapts the art to the neighbouring cells of the same kind.
    fn modify_connected_tiles(&mut self, width: u8, height: u8, objects: &Vec<bool>)
        requires
            old(self).can_link(width, height, objects@.len()),
    ;

    /// The kind of object.
    fn get_type(&self) -> ControllableType;

    /// The size of the view around the object, for players.
    fn get_viewport(&self) -> (u8, u8);
}

} // verus!
