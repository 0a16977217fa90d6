//! Players: the characters that connections control. A player walks one
//! cell at a time towards the cell its connection clicked, and runs the
//! other commands its connection sends in the order they came.

use vstd::prelude::*;
use crate::game::characters::{Controllable, ControllableType, Direction, Response, Token};
use crate::game::gamemap::GameMap;
use crate::game::pathing::{cells, closer_step, path_next, reaches};
use crate::text::{
    chars_of, decimal, decimal_chars, has_prefix, lemma_decimal_roundtrip, lemma_words_word_number,
    parse_u32, parse_unsigned_spec, push_all, split_char, split_on, split_words, starts_with,
    string_of, words,
};

verus! {

/// A player.
#[derive(Clone)]
pub struct Player {
    pub id: i64,
    pub token: Token,
    pub tile: String,
    pub hp: i32,
    pub max_hp: i32,
    pub name: String,
    pub speed: u8,
    pub index: u32,
    /// The cell the player is walking to.
    pub movement: Option<u32>,
    /// Ticks since the last step, up to 255.
    pub movement_ticks: u8,
    pub direction: Direction,
    /// Queued commands; the oldest is last.
    pub commands: Vec<String>,
}

/// One more tick, stopping at 255.
pub open spec fn sat_inc(t: u8) -> u8 {
    if t == 255 {
        255
    } else {
        (t + 1) as u8
    }
}

/// The art of a player with the skin `skin`.
pub open spec fn skin_art(skin: Seq<char>) -> Seq<char> {
    "players/"@ + skin + "."@
}

/// The command that walks towards cell `end`.
pub open spec fn end_command(end: u32) -> Seq<char> {
    "end "@ + decimal(end as nat)
}

/// The player's walking goal is due: it has one and has waited at least
/// `speed` ticks since its last step.
pub open spec fn movement_due(p: Player) -> bool {
    p.movement is Some && p.movement_ticks >= p.speed
}

/// The command the player runs next: a step towards its goal when that is
/// due, else the oldest queued command.
pub open spec fn next_command(p: Player) -> Option<Seq<char>> {
    if movement_due(p) {
        Some(end_command(p.movement.unwrap()))
    } else if p.commands.len() > 0 {
        Some(p.commands@.last()@)
    } else {
        None
    }
}

/// The queue after the next command is taken.
pub open spec fn commands_after(p: Player) -> Seq<String> {
    if !movement_due(p) && p.commands.len() > 0 {
        p.commands@.drop_last()
    } else {
        p.commands@
    }
}

/// The tick count after the next command is taken.
pub open spec fn ticks_after(p: Player) -> u8 {
    if movement_due(p) {
        0
    } else {
        sat_inc(p.movement_ticks)
    }
}

/// `q` agrees with `p` on what no command changes.
pub open spec fn same_identity(p: Player, q: Player) -> bool {
    &&& q.id == p.id
    &&& q.token == p.token
    &&& q.hp == p.hp
    &&& q.max_hp == p.max_hp
    &&& q.name == p.name
    &&& q.speed == p.speed
}

/// `q` is `p` after taking its next command and doing nothing with it.
pub open spec fn took_command(p: Player, q: Player) -> bool {
    &&& same_identity(p, q)
    &&& q.tile == p.tile
    &&& q.index == p.index
    &&& q.movement == p.movement
    &&& q.direction == p.direction
    &&& q.movement_ticks == ticks_after(p)
    &&& q.commands@ == commands_after(p)
}

/// Commands run in the order they came: once `a` and then `b` are queued
/// (see `Controllable::push_command`) on a player with no queued commands,
/// and no step is due, `a` is taken first, then `b`.
pub proof fn lemma_commands_in_order(p: Player, q1: Player, q2: Player, q3: Player, a: String, b: String)
    requires
        p.commands@.len() == 0,
        q1.commands@ == seq![a] + p.commands@,
        q2.commands@ == seq![b] + q1.commands@,
        !movement_due(q2),
        q3.commands@ == commands_after(q2),
        !movement_due(q3),
    ensures
        next_command(q2) == Some(a@),
        next_command(q3) == Some(b@),
        commands_after(q3).len() == 0,
{
    assert(q2.commands@ =~= seq![b, a]);
    assert(q3.commands@ =~= seq![b]);
}

/// A command that starts with `end` names its cell as its second word.
pub open spec fn end_target(c: Seq<char>) -> Option<nat> {
    if words(c).len() >= 2 {
        parse_unsigned_spec(words(c)[1], 10, 0xffff_ffff)
    } else {
        None
    }
}

/// The player can read its next command: one that starts with `end` has a
/// cell number as its second word.
pub open spec fn command_readable(p: Player) -> bool {
    next_command(p) matches Some(c) ==> (has_prefix(c, "end"@) ==> end_target(c) is Some)
}

/// The direction of a step from cell `from` to cell `to`: east or west when
/// the column changes, else north when the row goes up, else south.
pub open spec fn step_direction(w: u8, from: int, to: int) -> Direction {
    let x = from % (w as int);
    let y = from / (w as int);
    let tx = to % (w as int);
    let ty = to / (w as int);
    if tx > x {
        Direction::East
    } else if tx < x {
        Direction::West
    } else if ty < y {
        Direction::North
    } else {
        Direction::South
    }
}

/// The walking goal after a step to `end`: cleared when reached.
pub open spec fn goal_after(goal: Option<u32>, end: u32) -> Option<u32> {
    if goal == Some(end) {
        None
    } else {
        goal
    }
}

/// `r` is one message with the given style and text for connection `token`.
pub open spec fn is_reply(r: Option<Vec<Response>>, token: Token, style: u8, text: Seq<char>) -> bool {
    r matches Some(v) && v@.len() == 1 && v@[0].0 == token && v@[0].1 == style && v@[0].2@ == text
}

/// One message for connection `token`.
pub fn reply(token: Token, style: u8, text: &str) -> (r: Option<Vec<Response>>)
    ensures
        is_reply(r, token, style, text@),
{
    let mut v: Vec<Response> = Vec::new();
    v.push((token, style, text.to_owned()));
    Some(v)
}

/// `q` and the messages `r` are what an update of `p` on a grid `w` by `h`
/// with the blocked flags `blocked` gives. A step command (`end` and a cell)
/// moves the player one cell along a shortest way to that cell (see
/// `pathing::path_next`); it is answered when there is no way, or when the
/// player stands on the cell and it is blocked. `skin` and a name changes the
/// art; any other command is answered as bad.
pub open spec fn player_updated(p: Player, q: Player, width: u8, height: u8, blocked: Seq<bool>, r: Option<Vec<Response>>) -> bool {
    &&& same_identity(p, q)
    &&& q.commands@ == commands_after(p)
    &&& q.movement_ticks == ticks_after(p)
    &&& next_command(p) is None ==> r is None && took_command(p, q)
    &&& next_command(p) matches Some(c) ==> {
        let tok = p.token;
        let start = p.index as int;
        if has_prefix(c, "end"@) {
            let end = end_target(c).unwrap() as int;
            if end >= cells(width, height) {
                is_reply(r, tok, 5, "No Path Found"@) && took_command(p, q)
            } else {
                if !reaches(width, height, blocked, false, start, end) {
                    is_reply(r, tok, 5, "No Path Found"@) && took_command(p, q)
                } else if start == end && blocked[start] {
                    is_reply(r, tok, 5, "Path Blocked"@) && took_command(p, q)
                } else {
                    &&& r is None
                    &&& !blocked[q.index as int]
                    &&& if start == end {
                        q.index == start
                    } else {
                        closer_step(width, height, blocked, false, start, q.index as int, end)
                    }
                    &&& q.direction == step_direction(width, start, q.index as int)
                    &&& q.movement == goal_after(p.movement, q.index)
                    &&& q.tile == p.tile
                }
            }
        } else if has_prefix(c, "skin "@) {
            let parts = split_on(c, ' ');
            if parts.len() > 1 {
                is_reply(r, tok, 3, "Skin Changed"@) && q.tile@ == skin_art(parts[1])
                    && q.index == p.index
                    && q.movement == p.movement
                    && q.direction == p.direction
            } else {
                r is None && took_command(p, q)
            }
        } else {
            is_reply(r, tok, 5, "Bad command"@) && took_command(p, q)
        }
    }
}

impl Player {
    /// A player with the skin `tile`, controlled by connection `token`:
    /// 500 hit points, speed 10, facing south on cell 0.
    pub fn new(tile: String, token: Token) -> (r: Player)
        ensures
            r.id == 0,
            r.token == token,
            r.tile@ == skin_art(tile@),
            r.hp == 500,
            r.max_hp == 500,
            r.name@ == "empty"@,
            r.speed == 10,
            r.commands@.len() == 0,
            r.direction == Direction::South,
            r.index == 0,
            r.movement is None,
            r.movement_ticks == 0,
    {
        let mut art = chars_of("players/");
        push_all(&mut art, &chars_of(tile.as_str()));
        art.push('.');
        proof {
            reveal_strlit(".");
        }
        assert(art@ =~= skin_art(tile@));
        Player {
            id: 0,
            token: token,
            tile: string_of(&art),
            hp: 500,
            max_hp: 500,
            name: "empty".to_owned(),
            speed: 10,
            commands: Vec::new(),
            direction: Direction::South,
            index: 0,
            movement: None,
            movement_ticks: 0,
        }
    }

    /// Clears the walking goal if it is `end`.
    pub fn clear_movement_if_at_destination(&mut self, end: u32)
        ensures
            final(self).movement == goal_after(old(self).movement, end),
            final(self).index == old(self).index,
            final(self).tile == old(self).tile,
            final(self).direction == old(self).direction,
            final(self).movement_ticks == old(self).movement_ticks,
            final(self).commands == old(self).commands,
            same_identity(*old(self), *final(self)),
    {
        let replacement: Option<u32> = match self.movement {
            Some(e) => {
                if e == end {
                    None
                } else {
                    Some(e)
                }
            },
            None => None,
        };
        self.movement = replacement;
    }

    /// Takes the next command: a step towards the goal when due (the tick
    /// count restarts), else the oldest queued command (one more tick).
    pub fn get_command(&mut self) -> (r: Option<String>)
        ensures
            match next_command(*old(self)) {
                Some(c) => r matches Some(s) && s@ == c,
                None => r is None,
            },
            took_command(*old(self), *final(self)),
    {
        let has_movement = self.movement.is_some();
        if has_movement && self.movement_ticks >= self.speed {
            let end = self.movement.unwrap();
            self.movement_ticks = 0;
            let mut v = chars_of("end ");
            push_all(&mut v, &decimal_chars(end as u64));
            Some(string_of(&v))
        } else if self.commands.len() > 0 {
            self.movement_ticks = if self.movement_ticks == 255 {
                self.movement_ticks
            } else {
                self.movement_ticks + 1
            };
            self.commands.pop()
        } else {
            self.movement_ticks = if self.movement_ticks == 255 {
                self.movement_ticks
            } else {
                self.movement_ticks + 1
            };
            None
        }
    }

    /// Whether the player can read its next command (see `command_readable`).
    pub fn command_readable_now(&self) -> (r: bool)
        ensures
            r == command_readable(*self),
    {
        proof {
            reveal_strlit("end");
        }
        if self.movement.is_some() && self.movement_ticks >= self.speed {
            proof {
                Player::lemma_end_command_readable(self.movement.unwrap());
            }
            return true;
        }
        if self.commands.len() == 0 {
            return true;
        }
        let last = &self.commands[self.commands.len() - 1];
        if !starts_with(last.as_str(), "end") {
            return true;
        }
        let cv = chars_of(last.as_str());
        let parts = split_words(&cv);
        if parts.len() < 2 {
            return false;
        }
        assert(parts@[1]@ == words(cv@)[1]);
        parse_u32(&parts[1]).is_some()
    }

    /// A step towards the goal can always be read back.
    /// The cell that the next command walks to, when it is a readable step
    /// command.
    pub fn next_end_target(&self) -> (r: Option<u32>)
        ensures
            r matches Some(e) ==> next_command(*self) matches Some(c) && has_prefix(c, "end"@)
                && end_target(c) == Some(e as nat),
            r is None ==> !(next_command(*self) matches Some(c) && has_prefix(c, "end"@) && end_target(c) is Some),
    {
        proof {
            reveal_strlit("end");
        }
        if self.movement.is_some() && self.movement_ticks >= self.speed {
            proof {
                Player::lemma_end_command_readable(self.movement.unwrap());
            }
            return self.movement;
        }
        if self.commands.len() == 0 {
            return None;
        }
        let last = &self.commands[self.commands.len() - 1];
        if !starts_with(last.as_str(), "end") {
            return None;
        }
        let cv = chars_of(last.as_str());
        let parts = split_words(&cv);
        if parts.len() < 2 {
            return None;
        }
        assert(parts@[1]@ == words(cv@)[1]);
        parse_u32(&parts[1])
    }

    pub proof fn lemma_end_command_readable(end: u32)
        ensures
            has_prefix(end_command(end), "end"@),
            end_target(end_command(end)) == Some(end as nat),
    {
        reveal_strlit("end ");
        reveal_strlit("end");
        let w = "end"@;
        assert("end "@ =~= w + seq![' ']);
        lemma_words_word_number(w, end as nat);
        lemma_decimal_roundtrip(end as nat, 0xffff_ffff);
        assert(end_command(end).take(3) =~= w);
    }
}

impl Controllable for Player {
    open spec fn location(&self) -> u32 {
        self.index
    }

    open spec fn can_update(&self, width: u8, height: u8, len: nat) -> bool {
        &&& command_readable(*self)
        &&& (next_command(*self) matches Some(c) && has_prefix(c, "end"@) && end_target(c).unwrap() < cells(width, height))
            ==> (self.index as int) < cells(width, height) && len >= cells(width, height)
    }

    open spec fn can_link(&self, width: u8, height: u8, len: nat) -> bool {
        true
    }

    open spec fn can_hurt(&self, damage: i32) -> bool {
        self.hp > damage ==> self.hp - damage <= i32::MAX
    }

    /// Runs the next command. A step command (`end` and a cell) moves the
    /// player one cell along a path to that cell, unless the cell found is
    /// blocked or there is no path; `skin` and a name changes the art; any
    /// other command is answered as bad.
    fn update(&mut self, width: u8, height: u8, blocked: &Vec<bool>) -> (r: Option<Vec<Response>>)
        ensures
            player_updated(*old(self), *final(self), width, height, blocked@, r),
    {
        proof {
            reveal_strlit("end");
            reveal_strlit("skin ");
        }
        let c = self.get_command();
        match c {
            Some(command) => {
                if starts_with(command.as_str(), "end") {
                    let cv = chars_of(command.as_str());
                    let parts = split_words(&cv);
                    assert(parts@[1]@ == words(cv@)[1]);
                    let end = match parse_u32(&parts[1]) {
                        Some(e) => e,
                        None => {
                            return None;
                        },
                    };
                    assert(width as int * height as int <= 255 * 255) by (nonlinear_arith)
                        requires
                            width <= 255,
                            height <= 255,
                    ;
                    let n_cells = width as u32 * height as u32;
                    if end >= n_cells {
                        return reply(self.token, 5, "No Path Found");
                    }
                    let e = path_next(width, height, blocked, false, self.index, end);
                    match e {
                        Some(user_end) => {
                            let w = width as u32;
                            let x = self.index % w;
                            let y = self.index / w;
                            let dx = user_end % w;
                            let dy = user_end / w;
                            let mut dir = Direction::South;
                            if dx > x {
                                dir = Direction::East;
                            } else if dx < x {
                                dir = Direction::West;
                            } else if dy < y {
                                dir = Direction::North;
                            }
                            if blocked[user_end as usize] {
                                return reply(self.token, 5, "Path Blocked");
                            }
                            self.index = user_end;
                            self.direction = dir;
                            self.clear_movement_if_at_destination(user_end);
                            None
                        },
                        None => reply(self.token, 5, "No Path Found"),
                    }
                } else if starts_with(command.as_str(), "skin ") {
                    let cv = chars_of(command.as_str());
                    let parts = split_char(&cv, ' ');
                    if parts.len() > 1 {
                        assert(parts@[1]@ == split_on(cv@, ' ')[1]);
                        let mut art = chars_of("players/");
                        push_all(&mut art, &parts[1]);
                        art.push('.');
                        proof {
                            reveal_strlit(".");
                        }
                        assert(art@ =~= skin_art(parts@[1]@));
                        self.tile = string_of(&art);
                        reply(self.token, 3, "Skin Changed")
                    } else {
                        None
                    }
                } else {
                    reply(self.token, 5, "Bad command")
                }
            },
            None => None,
        }
    }

    fn get_location(&self) -> (r: u32) {
        self.index
    }

    /// The art for the direction faced: `S`, `N`, `E` or `W` after the skin.
    fn get_tile(&self) -> (r: String)
        ensures
            r@ == self.tile@ + seq![
                match self.direction {
                    Direction::North => 'N',
                    Direction::East => 'E',
                    Direction::West => 'W',
                    _ => 'S',
                },
            ],
    {
        let d = match self.direction {
            Direction::South => 'S',
            Direction::North => 'N',
            Direction::East => 'E',
            Direction::West => 'W',
            _ => 'S',
        };
        let mut v = chars_of(self.tile.as_str());
        v.push(d);
        string_of(&v)
    }

    fn get_size(&self) -> (r: (u32, u32))
        ensures
            r == (1u32, 1u32),
    {
        (1, 1)
    }

    fn get_token(&self) -> (r: Option<Token>)
        ensures
            r == Some(self.token),
    {
        Some(self.token)
    }

    fn get_hp(&self) -> (r: Option<i32>)
        ensures
            r == Some(self.hp),
    {
        Some(self.hp)
    }

    fn set_location(&mut self, index: u32)
        ensures
            same_identity(*old(self), *final(self)),
            final(self).tile == old(self).tile,
            final(self).movement == old(self).movement,
            final(self).movement_ticks == old(self).movement_ticks,
            final(self).direction == old(self).direction,
            final(self).commands == old(self).commands,
    {
        self.index = index;
    }

    fn does_block_index(&self, index: u32) -> (r: bool)
        ensures
            r == (self.index == index),
    {
        self.index == index
    }

    fn is_visible(&self, map: &GameMap) -> (r: bool)
        ensures
            r,
    {
        true
    }

    /// Takes `damage` off the hit points; when they would not stay above
    /// zero the player starts again with full hit points.
    fn hurt(&mut self, damage: i32)
        ensures
            final(self).hp == (if old(self).hp > damage { old(self).hp - damage } else { old(self).max_hp as int }),
            final(self).index == old(self).index,
            final(self).token == old(self).token,
            final(self).max_hp == old(self).max_hp,
            final(self).id == old(self).id,
            final(self).tile == old(self).tile,
            final(self).name == old(self).name,
            final(self).speed == old(self).speed,
            final(self).movement == old(self).movement,
            final(self).movement_ticks == old(self).movement_ticks,
            final(self).direction == old(self).direction,
            final(self).commands == old(self).commands,
    {
        self.hp = if self.hp > damage {
            self.hp - damage
        } else {
            self.max_hp
        };
    }

    /// Queues a command behind the ones already queued.
    fn push_command(&mut self, command: String)
        ensures
            final(self).commands@ == seq![command] + old(self).commands@,
            same_identity(*old(self), *final(self)),
            final(self).tile == old(self).tile,
            final(self).index == old(self).index,
            final(self).movement == old(self).movement,
            final(self).movement_ticks == old(self).movement_ticks,
            final(self).direction == old(self).direction,
    {
        self.commands.insert(0, command);
    }

    fn set_movement(&mut self, end: u32)
        ensures
            final(self).movement == Some(end),
            same_identity(*old(self), *final(self)),
            final(self).tile == old(self).tile,
            final(self).index == old(self).index,
            final(self).movement_ticks == old(self).movement_ticks,
            final(self).direction == old(self).direction,
            final(self).commands == old(self).commands,
    {
        self.movement = Some(end);
    }

    fn modify_connected_tiles(&mut self, width: u8, height: u8, objects: &Vec<bool>)
        ensures
            *final(self) == *old(self),
    {
    }

    fn get_type(&self) -> (r: ControllableType)
        ensures
            r == ControllableType::Player,
    {
        ControllableType::Player
    }

    /// A player sees 13 by 13 cells around itself.
    fn get_viewport(&self) -> (r: (u8, u8))
        ensures
            r == (13u8, 13u8),
    {
        (13, 13)
    }
}

} // verus!
