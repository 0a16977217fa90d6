//! Projectiles: shots that fly towards their target across any cell,
//! diagonals included.

use vstd::prelude::*;
use crate::game::characters::{Direction, Token};
use crate::game::gamemap::GameMap;
use crate::game::pathing::{self, cells, cheb, closer_step, lemma_closer_step_cheb, lemma_open_grid_reaches};
use crate::text::{chars_of, decimal, decimal_chars, push_all, string_of};

verus! {

/// A projectile flying towards the player of connection `target`.
#[derive(Clone)]
pub struct Projectile {
    pub tile: String,
    pub speed: u8,
    pub target: Token,
    pub index: u32,
    pub movement_ticks: u8,
    pub direction: Direction,
}

/// The command a projectile on cell `index` gives when it moves on.
pub open spec fn track_command(index: u32, target: Token) -> Seq<char> {
    "ProjectileFindAndTrack "@ + decimal(index as nat) + seq![' '] + decimal(target as nat)
}

/// The letters of the art for a direction.
pub open spec fn direction_code(d: Direction) -> Seq<char> {
    match d {
        Direction::North => "N"@,
        Direction::East => "E"@,
        Direction::West => "W"@,
        Direction::NorthWest => "NW"@,
        Direction::NorthEast => "NE"@,
        Direction::SouthWest => "SW"@,
        Direction::SouthEast => "SE"@,
        _ => "S"@,
    }
}

impl Projectile {
    /// A snowball aimed at the player of connection `token`, on cell 406,
    /// moving every 10 ticks.
    pub fn new(token: Token) -> (r: Projectile)
        ensures
            r.tile@ == "spells/blizzard/snowball_meteor."@,
            r.speed == 10,
            r.index == 406,
            r.direction == Direction::South,
            r.target == token,
            r.movement_ticks == 0,
    {
        Projectile {
            tile: "spells/blizzard/snowball_meteor.".to_owned(),
            speed: 10,
            index: 406,
            direction: Direction::South,
            target: token,
            movement_ticks: 0,
        }
    }

    /// The first step from `start` on a shortest way to `end` across the
    /// map, where a step goes to any of the eight cells around and no cell is
    /// blocked (see `pathing::path_next`): `start` itself when it is `end`,
    /// else a step after which `end` is one step nearer.
    pub fn path_next(map: &GameMap, start: u32, end: u32) -> (r: Option<u32>)
        requires
            map.width > 0,
            (start as int) < cells(map.width, map.height),
            (end as int) < cells(map.width, map.height),
        ensures
            r is Some,
            r matches Some(s) ==> if start == end {
                s == start
            } else {
                s != start && closer_step(map.width, map.height, Seq::empty(), true, start as int, s as int, end as int)
                    && cheb(map.width, s as int, end as int) == cheb(map.width, start as int, end as int) - 1
            },
    {
        let none: Vec<bool> = Vec::new();
        assert(none@ =~= Seq::<bool>::empty());
        proof {
            lemma_open_grid_reaches(map.width, map.height, start as int, end as int);
        }
        let r = pathing::path_next(map.width, map.height, &none, true, start, end);
        proof {
            if start != end {
                lemma_closer_step_cheb(map.width, map.height, start as int, r.unwrap() as int, end as int);
            }
        }
        r
    }

    /// Moves the projectile to `index`. Every `speed` ticks it asks to move
    /// on towards its target (the tick count restarts); otherwise it counts
    /// one more tick, up to 255.
    pub fn get_command(&mut self, index: u32) -> (r: Option<String>)
        ensures
            final(self).index == index,
            final(self).tile == old(self).tile,
            final(self).speed == old(self).speed,
            final(self).target == old(self).target,
            final(self).direction == old(self).direction,
            old(self).movement_ticks >= old(self).speed ==> (final(self).movement_ticks == 0
                && (r matches Some(s) && s@ == track_command(index, old(self).target))),
            old(self).movement_ticks < old(self).speed ==> r is None && final(self).movement_ticks == (
                if old(self).movement_ticks == 255 { 255 } else { old(self).movement_ticks + 1 }),
    {
        self.index = index;
        if self.movement_ticks >= self.speed {
            self.movement_ticks = 0;
            let mut v = chars_of("ProjectileFindAndTrack ");
            push_all(&mut v, &decimal_chars(self.index as u64));
            v.push(' ');
            push_all(&mut v, &decimal_chars(self.target as u64));
            Some(string_of(&v))
        } else {
            self.movement_ticks = if self.movement_ticks == 255 {
                255
            } else {
                self.movement_ticks + 1
            };
            None
        }
    }

    /// The art: the tile, the direction's letters and `1`.
    pub fn get_tile(&self) -> (r: String)
        ensures
            r@ == self.tile@ + direction_code(self.direction) + "1"@,
    {
        proof {
            reveal_strlit("N");
            reveal_strlit("E");
            reveal_strlit("W");
            reveal_strlit("S");
            reveal_strlit("NW");
            reveal_strlit("NE");
            reveal_strlit("SW");
            reveal_strlit("SE");
            reveal_strlit("1");
        }
        let code = match self.direction {
            Direction::South => "S",
            Direction::North => "N",
            Direction::East => "E",
            Direction::West => "W",
            Direction::NorthWest => "NW",
            Direction::NorthEast => "NE",
            Direction::SouthWest => "SW",
            Direction::SouthEast => "SE",
            _ => "S",
        };
        let mut v = chars_of(self.tile.as_str());
        push_all(&mut v, &chars_of(code));
        v.push('1');
        assert(v@ =~= self.tile@ + direction_code(self.direction) + "1"@);
        string_of(&v)
    }

    /// Projectiles move.
    pub fn does_move(&self) -> (r: bool)
        ensures
            r,
    {
        true
    }

    pub fn set_direction(&mut self, dir: Direction)
        ensures
            final(self).direction == dir,
            final(self).index == old(self).index,
            final(self).tile == old(self).tile,
            final(self).speed == old(self).speed,
            final(self).target == old(self).target,
            final(self).movement_ticks == old(self).movement_ticks,
    {
        self.direction = dir;
    }

    /// Projectiles take no commands.
    pub fn push_command(&mut self, command: String)
        ensures
            *final(self) == *old(self),
    {
    }

    /// Projectiles have no goal but their target.
    pub fn set_movement(&mut self, end: u32)
        ensures
            *final(self) == *old(self),
    {
    }

    pub fn clear_movement_if_at_destination(&mut self, end: u32)
        ensures
            *final(self) == *old(self),
    {
    }
}

} // verus!
