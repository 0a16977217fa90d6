//! The map of the game loop: its terrain, the objects on it (roads, walls,
//! items and players) and its teleporters, and the rules that update them.

use vstd::prelude::*;
use std::collections::HashMap;
use crate::game::characters::connected::{keeps_art, link_suffix, neighbor, RoadWall};
use crate::game::characters::item::Item;
use crate::game::characters::player::{player_updated, same_identity, skin_art, Player};
use crate::game::characters::teleporter::Teleporter;
use crate::game::characters::{Controllable, ControllableType, Direction, Response, Token};
use crate::text::{chars_of, contains, has_prefix, has_sub, str_eq, lowercase_of, parse_i32, parse_i32_spec, split_words, starts_with, words};

verus! {

broadcast use vstd::std_specs::hash::group_hash_axioms;

/// An object on a map.
pub enum MapObject {
    RoadWall(RoadWall),
    Item(Item),
    Player(Player),
}

/// The connection that controls an object: players have one.
pub open spec fn token_of(o: MapObject) -> Option<Token> {
    match o {
        MapObject::Player(p) => Some(p.token),
        _ => None,
    }
}

/// The hit points of an object: players have them.
pub open spec fn hp_of(o: MapObject) -> Option<i32> {
    match o {
        MapObject::Player(p) => Some(p.hp),
        _ => None,
    }
}

/// The object keeps others off cell `index`: items and players block their
/// own cell, walls too unless they are doors, roads never.
pub open spec fn blocks(o: MapObject, index: u32) -> bool {
    match o {
        MapObject::RoadWall(r) => r.index == index && !has_sub(r.tile@, "roads"@) && !has_sub(r.tile@, "door"@)
            && !has_sub(r.tile@, "Door"@),
        MapObject::Item(i) => i.index == index,
        MapObject::Player(p) => p.index == index,
    }
}

/// The art of an object: a player's art ends with the letter of the
/// direction it faces.
pub open spec fn art_of(o: MapObject) -> Seq<char> {
    match o {
        MapObject::RoadWall(r) => r.tile@,
        MapObject::Item(i) => i.tile@,
        MapObject::Player(p) => p.tile@ + seq![
            match p.direction {
                Direction::North => 'N',
                Direction::East => 'E',
                Direction::West => 'W',
                _ => 'S',
            },
        ],
    }
}

/// `n` and the messages `r` are what an update of `o` gives: players follow
/// their commands, the others stay as they are.
pub open spec fn object_updated(o: MapObject, n: MapObject, w: u8, h: u8, blocked: Seq<bool>, r: Option<Vec<Response>>) -> bool {
    match o {
        MapObject::Player(p) => n matches MapObject::Player(q) && player_updated(p, q, w, h, blocked, r),
        _ => n == o && r is None,
    }
}

/// The kind of an object.
pub open spec fn kind_of(o: MapObject) -> ControllableType {
    match o {
        MapObject::RoadWall(r) => if has_sub(r.tile@, "roads"@) {
            ControllableType::Road
        } else {
            ControllableType::Wall
        },
        MapObject::Item(_) => ControllableType::Item,
        MapObject::Player(_) => ControllableType::Player,
    }
}

impl Controllable for MapObject {
    open spec fn location(&self) -> u32 {
        match *self {
            MapObject::RoadWall(r) => r.index,
            MapObject::Item(i) => i.index,
            MapObject::Player(p) => p.index,
        }
    }

    open spec fn can_update(&self, width: u8, height: u8, len: nat) -> bool {
        match *self {
            MapObject::RoadWall(r) => r.can_update(width, height, len),
            MapObject::Item(i) => i.can_update(width, height, len),
            MapObject::Player(p) => p.can_update(width, height, len),
        }
    }

    open spec fn can_link(&self, width: u8, height: u8, len: nat) -> bool {
        match *self {
            MapObject::RoadWall(r) => r.can_link(width, height, len),
            MapObject::Item(i) => i.can_link(width, height, len),
            MapObject::Player(p) => p.can_link(width, height, len),
        }
    }

    open spec fn can_hurt(&self, damage: i32) -> bool {
        match *self {
            MapObject::RoadWall(r) => r.can_hurt(damage),
            MapObject::Item(i) => i.can_hurt(damage),
            MapObject::Player(p) => p.can_hurt(damage),
        }
    }

    fn update(&mut self, width: u8, height: u8, blocked: &Vec<bool>) -> (r: Option<Vec<Response>>)
        ensures
            object_updated(*old(self), *final(self), width, height, blocked@, r),
    {
        match self {
            MapObject::RoadWall(o) => o.update(width, height, blocked),
            MapObject::Item(o) => o.update(width, height, blocked),
            MapObject::Player(o) => o.update(width, height, blocked),
        }
    }

    fn get_location(&self) -> (r: u32) {
        match self {
            MapObject::RoadWall(o) => o.get_location(),
            MapObject::Item(o) => o.get_location(),
            MapObject::Player(o) => o.get_location(),
        }
    }

    fn get_tile(&self) -> (r: String)
        ensures
            r@ == art_of(*self),
    {
        match self {
            MapObject::RoadWall(o) => o.get_tile(),
            MapObject::Item(o) => o.get_tile(),
            MapObject::Player(o) => o.get_tile(),
        }
    }

    fn get_size(&self) -> (r: (u32, u32))
        ensures
            r == (1u32, 1u32),
    {
        match self {
            MapObject::RoadWall(o) => o.get_size(),
            MapObject::Item(o) => o.get_size(),
            MapObject::Player(o) => o.get_size(),
        }
    }

    fn get_token(&self) -> (r: Option<Token>)
        ensures
            r == token_of(*self),
    {
        match self {
            MapObject::RoadWall(o) => o.get_token(),
            MapObject::Item(o) => o.get_token(),
            MapObject::Player(o) => o.get_token(),
        }
    }

    fn get_hp(&self) -> (r: Option<i32>)
        ensures
            r == hp_of(*self),
    {
        match self {
            MapObject::RoadWall(o) => o.get_hp(),
            MapObject::Item(o) => o.get_hp(),
            MapObject::Player(o) => o.get_hp(),
        }
    }

    fn set_location(&mut self, index: u32) {
        match self {
            MapObject::RoadWall(o) => o.set_location(index),
            MapObject::Item(o) => o.set_location(index),
            MapObject::Player(o) => o.set_location(index),
        }
    }

    fn does_block_index(&self, index: u32) -> (r: bool)
        ensures
            r == blocks(*self, index),
    {
        match self {
            MapObject::RoadWall(o) => o.does_block_index(index),
            MapObject::Item(o) => o.does_block_index(index),
            MapObject::Player(o) => o.does_block_index(index),
        }
    }

    fn is_visible(&self, map: &GameMap) -> (r: bool)
        ensures
            r,
    {
        match self {
            MapObject::RoadWall(o) => o.is_visible(map),
            MapObject::Item(o) => o.is_visible(map),
            MapObject::Player(o) => o.is_visible(map),
        }
    }

    /// A player takes the damage (see `Player::hurt`); roads, walls and
    /// items are left as they are.
    fn hurt(&mut self, damage: i32)
        ensures
            match *old(self) {
                MapObject::Player(p) => *final(self) matches MapObject::Player(q)
                    && q.hp == (if p.hp > damage { p.hp - damage } else { p.max_hp as int })
                    && q.id == p.id && q.token == p.token && q.max_hp == p.max_hp && q.index == p.index
                    && q.tile == p.tile && q.name == p.name && q.speed == p.speed
                    && q.movement == p.movement && q.movement_ticks == p.movement_ticks
                    && q.direction == p.direction && q.commands == p.commands,
                _ => *final(self) == *old(self),
            },
    {
        match self {
            MapObject::RoadWall(o) => o.hurt(damage),
            MapObject::Item(o) => o.hurt(damage),
            MapObject::Player(o) => o.hurt(damage),
        }
    }

    fn set_movement(&mut self, end: u32)
        ensures
            match *old(self) {
                MapObject::Player(p) => *final(self) matches MapObject::Player(q) && q.movement == Some(end)
                    && q.index == p.index && q.token == p.token && q.commands == p.commands,
                _ => *final(self) == *old(self),
            },
    {
        match self {
            MapObject::RoadWall(o) => o.set_movement(end),
            MapObject::Item(o) => o.set_movement(end),
            MapObject::Player(o) => o.set_movement(end),
        }
    }

    fn push_command(&mut self, command: String)
        ensures
            match *old(self) {
                MapObject::Player(p) => *final(self) matches MapObject::Player(q) && q.commands@ == seq![command]
                    + p.commands@ && q.index == p.index && q.token == p.token && q.movement == p.movement,
                _ => *final(self) == *old(self),
            },
    {
        match self {
            MapObject::RoadWall(o) => o.push_command(command),
            MapObject::Item(o) => o.push_command(command),
            MapObject::Player(o) => o.push_command(command),
        }
    }

    fn modify_connected_tiles(&mut self, width: u8, height: u8, objects: &Vec<bool>)
        ensures
            match *old(self) {
                MapObject::RoadWall(r) => *final(self) matches MapObject::RoadWall(q) && q.index == r.index
                    && q.tile@ == (if keeps_art(r.tile@) {
                        r.tile@
                    } else {
                        r.tile@ + link_suffix(width, height, objects@, r.index as int)
                    }),
                _ => *final(self) == *old(self),
            },
    {
        match self {
            MapObject::RoadWall(o) => o.modify_connected_tiles(width, height, objects),
            MapObject::Item(o) => o.modify_connected_tiles(width, height, objects),
            MapObject::Player(o) => o.modify_connected_tiles(width, height, objects),
        }
    }

    fn get_type(&self) -> (r: ControllableType)
        ensures
            r == kind_of(*self),
    {
        match self {
            MapObject::RoadWall(o) => o.get_type(),
            MapObject::Item(o) => o.get_type(),
            MapObject::Player(o) => o.get_type(),
        }
    }

    fn get_viewport(&self) -> (r: (u8, u8))
        ensures
            r == (match *self {
                MapObject::Player(_) => (13u8, 13u8),
                _ => (0u8, 0u8),
            }),
    {
        match self {
            MapObject::RoadWall(o) => o.get_viewport(),
            MapObject::Item(o) => o.get_viewport(),
            MapObject::Player(o) => o.get_viewport(),
        }
    }
}

/// One cell of terrain: its art and whether it is blocked.
#[derive(Clone)]
pub struct MapTile {
    pub tile: String,
    pub blocked: bool,
}

impl MapTile {
    /// Terrain with the art `tile`, not blocked.
    pub fn new(tile: String) -> (r: MapTile)
        ensures
            r.tile@ == tile@,
            !r.blocked,
    {
        MapTile { tile: tile, blocked: false }
    }
}

/// A map: `width` by `height` cells of terrain (cell `y * width + x`), the
/// objects on it, the teleporters by cell and where players start.
pub struct GameMap {
    pub width: u8,
    pub height: u8,
    pub tiles: Vec<MapTile>,
    pub objects: Vec<MapObject>,
    pub teleporter: HashMap<u32, Teleporter>,
    pub start_x: u8,
    pub start_y: u8,
}


/// Object `i` is the first one controlled by connection `t`.
pub open spec fn is_first_holder(objs: Seq<MapObject>, t: Token, i: int) -> bool {
    &&& 0 <= i < objs.len()
    &&& token_of(objs[i]) == Some(t)
    &&& forall|j: int| 0 <= j < i ==> token_of(#[trigger] objs[j]) != Some(t)
}

/// Object `i` is the last one controlled by connection `t`.
pub open spec fn is_last_holder(objs: Seq<MapObject>, t: Token, i: int) -> bool {
    &&& 0 <= i < objs.len()
    &&& token_of(objs[i]) == Some(t)
    &&& forall|j: int| i < j < objs.len() ==> token_of(#[trigger] objs[j]) != Some(t)
}

/// The position of the first object controlled by connection `t`.
pub open spec fn holder(objs: Seq<MapObject>, t: Token) -> Option<int> {
    if exists|i: int| is_first_holder(objs, t, i) {
        Some(choose|i: int| is_first_holder(objs, t, i))
    } else {
        None
    }
}

/// The position of the last object controlled by connection `t`.
pub open spec fn last_holder(objs: Seq<MapObject>, t: Token) -> Option<int> {
    if exists|i: int| is_last_holder(objs, t, i) {
        Some(choose|i: int| is_last_holder(objs, t, i))
    } else {
        None
    }
}

/// The teleports of players standing on teleporters: for each object, in
/// order, that has a connection and stands on a teleporter's cell.
pub open spec fn teleports(objs: Seq<MapObject>, tele: Map<u32, Teleporter>) -> Seq<(Token, Seq<char>, Option<(u8, u8)>)>
    decreases objs.len(),
{
    if objs.len() == 0 {
        Seq::empty()
    } else {
        let o = objs.last();
        let rest = teleports(objs.drop_last(), tele);
        match token_of(o) {
            Some(t) => if tele.contains_key(o.location()) {
                let tp = tele[o.location()];
                rest.push((t, tp.map@, if tp.use_default { None } else { Some((tp.x, tp.y)) }))
            } else {
                rest
            },
            None => rest,
        }
    }
}

/// `entry` is where object `o` goes by the teleporter under it: `o` is the
/// player of connection `entry.0`, it stands on a teleporter, `entry.1` is
/// that teleporter's map, and the landing cell is none exactly when the
/// teleporter sends players to the map's own start, else its `x` and `y`.
pub open spec fn teleported_by(o: MapObject, tele: Map<u32, Teleporter>, entry: (Token, Seq<char>, Option<(u8, u8)>)) -> bool {
    &&& token_of(o) == Some(entry.0)
    &&& tele.contains_key(o.location())
    &&& entry.1 == tele[o.location()].map@
    &&& (entry.2 is None <==> tele[o.location()].use_default)
    &&& (entry.2 matches Some(p) ==> p == (tele[o.location()].x, tele[o.location()].y))
}

/// The teleports of a tick are those of the players standing on
/// teleporters: each entry is one such player's (`teleported_by`), and each
/// player with a connection that stands on a teleporter has an entry.
pub proof fn lemma_teleports_land(objs: Seq<MapObject>, tele: Map<u32, Teleporter>)
    ensures
        forall|e: int| 0 <= e < teleports(objs, tele).len() ==> exists|k: int| #![trigger objs[k]]
            0 <= k < objs.len() && teleported_by(objs[k], tele, #[trigger] teleports(objs, tele)[e]),
        forall|k: int| 0 <= k < objs.len() && (#[trigger] token_of(objs[k])) is Some && tele.contains_key(objs[k].location())
            ==> exists|e: int| 0 <= e < teleports(objs, tele).len() && teleported_by(objs[k], tele, #[trigger] teleports(objs, tele)[e]),
        teleports(objs, tele).len() == objs.filter(|o: MapObject| token_of(o) is Some && tele.contains_key(o.location())).len(),
        forall|e: int| 0 <= e < teleports(objs, tele).len() ==> teleported_by(
            objs.filter(|o: MapObject| token_of(o) is Some && tele.contains_key(o.location()))[e],
            tele,
            #[trigger] teleports(objs, tele)[e],
        ),
    decreases objs.len(),
{
    reveal(Seq::filter);
    if objs.len() > 0 {
        let f = |o: MapObject| token_of(o) is Some && tele.contains_key(o.location());
        assert(objs.filter(f) == (if f(objs.last()) { objs.drop_last().filter(f).push(objs.last()) } else { objs.drop_last().filter(f) }));
        let init = objs.drop_last();
        let rest = teleports(init, tele);
        let all = teleports(objs, tele);
        let n = objs.len() - 1;
        lemma_teleports_land(init, tele);
        assert forall|k: int| 0 <= k < init.len() implies #[trigger] init[k] == objs[k] by {}
        assert(all.len() >= rest.len());
        assert forall|e: int| 0 <= e < rest.len() implies #[trigger] all[e] == rest[e] by {}
        assert forall|e: int| 0 <= e < all.len() implies exists|k: int| #![trigger objs[k]]
            0 <= k < objs.len() && teleported_by(objs[k], tele, #[trigger] all[e]) by {
            if e < rest.len() {
                assert(all[e] == rest[e]);
                let k = choose|k: int| #![trigger init[k]] 0 <= k < init.len() && teleported_by(init[k], tele, rest[e]);
                assert(objs[k] == init[k]);
            } else {
                assert(teleported_by(objs[n], tele, all[e]));
            }
        }
        assert forall|k: int| 0 <= k < objs.len() && (#[trigger] token_of(objs[k])) is Some && tele.contains_key(objs[k].location())
            implies exists|e: int| 0 <= e < all.len() && teleported_by(objs[k], tele, #[trigger] all[e]) by {
            if k < n {
                assert(token_of(init[k]) is Some);
                let e = choose|e: int| 0 <= e < rest.len() && teleported_by(init[k], tele, #[trigger] rest[e]);
                assert(all[e] == rest[e]);
            } else {
                assert(teleported_by(objs[n], tele, all[rest.len() as int]));
            }
        }
    }
}

/// One coordinate of the cell a click aims at: the player's coordinate `o`
/// plus the click's `m`, less the 6 cells from the screen's edge to its
/// middle, or 0 when that is not past the middle; `None` where the
/// arithmetic leaves 32 bits (signed for the test, unsigned for the result).
pub open spec fn click_axis(o: u32, m: int) -> Option<int> {
    let s = (o as i32) as int + m;
    if s < i32::MIN || s > i32::MAX {
        None
    } else if s > 6 {
        let t = o as int + (m as u32) as int;
        if t > u32::MAX || t < 6 {
            None
        } else {
            Some(t - 6)
        }
    } else {
        Some(0)
    }
}

/// The cell a `mouse x y ...` command from a player on cell `loc` aims at,
/// or `None` where the command cannot be read or the arithmetic overflows.
pub open spec fn click_goal(loc: u32, w: u8, command: Seq<char>) -> Option<u32> {
    let ws = words(command);
    if ws.len() < 3 || w == 0 {
        None
    } else {
        match (parse_i32_spec(ws[1]), parse_i32_spec(ws[2])) {
            (Some(mx), Some(my)) => match (click_axis(loc % (w as u32), mx), click_axis(loc / (w as u32), my)) {
                (Some(dx), Some(dy)) => if dy * w + dx <= u32::MAX {
                    Some((dy * w + dx) as u32)
                } else {
                    None
                },
                _ => None,
            },
            _ => None,
        }
    }
}

/// `after` is `before` once connection `token` sent `command`: its first
/// object, when it is a player, gets a new goal from a click (`mouse x y`) or
/// queues any other command first; nothing else changes.
pub open spec fn command_pushed(before: Seq<MapObject>, after: Seq<MapObject>, w: u8, token: Token, command: String) -> bool {
    &&& after.len() == before.len()
    &&& match holder(before, token) {
        None => after == before,
        Some(i) => {
            &&& forall|j: int| 0 <= j < before.len() && j != i ==> after[j] == before[j]
            &&& match before[i] {
                MapObject::Player(p) => after[i] matches MapObject::Player(q) && q.index == p.index && q.token == p.token
                    && if has_prefix(command@, "mouse"@) {
                        q.movement == click_goal(p.index, w, command@) && q.commands == p.commands
                    } else {
                        q.commands@ == seq![command] + p.commands@ && q.movement == p.movement
                    },
                _ => after[i] == before[i],
            }
        },
    }
}

/// The cell a click aims at, coordinate by coordinate: `o + m - 6` when that
/// is past the screen's middle (above 6), else 0.
proof fn lemma_click_axis_value(o: u32, m: int)
    requires
        o <= i32::MAX,
        i32::MIN <= o + m <= i32::MAX,
        m >= 0 || o + m <= 6,
    ensures
        click_axis(o, m) == Some(if o + m > 6 { o + m - 6 } else { 0 }),
{
    assert((o as i32) as int == o as int) by (bit_vector)
        requires
            o <= 0x7fff_ffffu32,
    ;
    if o + m > 6 {
        assert(0 <= m <= u32::MAX);
        assert((m as u32) as int == m);
    }
}

/// A click sets the walking goal by the click's place on the screen: after
/// `mouse mx my ...` from the player on cell `loc` of a map `w` wide, the
/// goal is the cell in column `loc % w + mx - 6` and row `loc / w + my - 6`
/// (each 0 where it is not past the screen's middle, 6): the column comes
/// from the click's `mx` and the row from its `my`. Left out are clicks whose
/// arithmetic leaves 32 bits, and a negative `mx` (or `my`) that still lands
/// past the middle, where the unsigned sum overflows.
pub proof fn lemma_click_sets_goal(
    before: Seq<MapObject>,
    after: Seq<MapObject>,
    w: u8,
    token: Token,
    command: String,
    mx: int,
    my: int,
)
    requires
        command_pushed(before, after, w, token, command),
        holder(before, token) matches Some(i) && before[i] is Player,
        has_prefix(command@, "mouse"@),
        w > 0,
        words(command@).len() >= 3,
        parse_i32_spec(words(command@)[1]) == Some(mx),
        parse_i32_spec(words(command@)[2]) == Some(my),
        ({
            let loc = before[holder(before, token).unwrap()].location();
            let ox = loc % (w as u32);
            let oy = loc / (w as u32);
            let col = if ox + mx > 6 { ox + mx - 6 } else { 0 };
            let row = if oy + my > 6 { oy + my - 6 } else { 0 };
            &&& loc <= i32::MAX
            &&& i32::MIN <= ox + mx <= i32::MAX && (mx >= 0 || ox + mx <= 6)
            &&& i32::MIN <= oy + my <= i32::MAX && (my >= 0 || oy + my <= 6)
            &&& row * w + col <= u32::MAX
        }),
    ensures
        ({
            let i = holder(before, token).unwrap();
            let loc = before[i].location();
            let ox = loc % (w as u32);
            let oy = loc / (w as u32);
            let col = if ox + mx > 6 { ox + mx - 6 } else { 0 };
            let row = if oy + my > 6 { oy + my - 6 } else { 0 };
            after[i] matches MapObject::Player(q) && q.movement == Some((row * w + col) as u32)
        }),
{
    let i = holder(before, token).unwrap();
    let loc = before[i].location();
    let ox = loc % (w as u32);
    let oy = loc / (w as u32);
    let wu = w as u32;
    assert(ox < wu && oy <= loc) by (nonlinear_arith)
        requires
            wu > 0,
            ox == loc % wu,
            oy == loc / wu,
    ;
    lemma_click_axis_value(ox, mx);
    lemma_click_axis_value(oy, my);
}

impl GameMap {
    /// The position of the first object controlled by connection `token`.
    pub fn find_player_with_token(&self, token: Token) -> (r: Option<usize>)
        ensures
            r matches Some(i) ==> is_first_holder(self.objects@, token, i as int),
            r is None ==> forall|j: int| 0 <= j < self.objects@.len() ==> token_of(#[trigger] self.objects@[j]) != Some(token),
            r == (match holder(self.objects@, token) {
                Some(i) => Some(i as usize),
                None => None::<usize>,
            }),
    {
        let len = self.objects.len();
        let mut i: usize = 0;
        while i < len
            invariant
                len == self.objects@.len(),
                i <= len,
                forall|j: int| 0 <= j < i ==> token_of(#[trigger] self.objects@[j]) != Some(token),
            decreases len - i,
        {
            match self.objects[i].get_token() {
                Some(tok) => {
                    if tok == token {
                        proof {
                            assert(is_first_holder(self.objects@, token, i as int));
                            let c = choose|k: int| is_first_holder(self.objects@, token, k);
                            assert(c == i) by {
                                if c < i {
                                    assert(token_of(self.objects@[c]) != Some(token));
                                }
                                if c > i {
                                    assert(token_of(self.objects@[i as int]) != Some(token));
                                }
                            }
                        }
                        return Some(i);
                    }
                },
                None => {},
            }
            i = i + 1;
        }
        None
    }

    /// The hit points of the player of connection `token`, if it is on the
    /// map.
    pub fn get_hp(&self, token: Token) -> (r: Option<i32>)
        ensures
            r == (match holder(self.objects@, token) {
                Some(i) => hp_of(self.objects@[i]),
                None => None,
            }),
    {
        match self.find_player_with_token(token) {
            Some(index) => self.objects[index].get_hp(),
            None => None,
        }
    }

    /// Removes the last object controlled by connection `token`, if any.
    pub fn remove_player(&mut self, token: Token)
        ensures
            final(self).objects@ == (match last_holder(old(self).objects@, token) {
                Some(i) => old(self).objects@.remove(i),
                None => old(self).objects@,
            }),
            final(self).width == old(self).width,
            final(self).height == old(self).height,
            final(self).tiles == old(self).tiles,
            final(self).teleporter == old(self).teleporter,
            final(self).start_x == old(self).start_x,
            final(self).start_y == old(self).start_y,
    {
        let len = self.objects.len();
        let mut remove_index: Option<usize> = None;
        let mut i: usize = 0;
        while i < len
            invariant
                len == self.objects@.len(),
                i <= len,
                remove_index matches Some(k) ==> k < i && token_of(self.objects@[k as int]) == Some(token),
                forall|j: int| (match remove_index {
                    Some(k) => k < j < i,
                    None => 0 <= j < i,
                }) ==> token_of(#[trigger] self.objects@[j]) != Some(token),
            decreases len - i,
        {
            match self.objects[i].get_token() {
                Some(tok) => {
                    if tok == token {
                        remove_index = Some(i);
                    }
                },
                None => {},
            }
            i = i + 1;
        }
        match remove_index {
            Some(index) => {
                proof {
                    assert(is_last_holder(self.objects@, token, index as int));
                    let c = choose|k: int| is_last_holder(self.objects@, token, k);
                    assert(c == index) by {
                        if c < index {
                            assert(token_of(self.objects@[index as int]) != Some(token));
                        }
                        if c > index {
                            assert(token_of(self.objects@[c]) != Some(token));
                        }
                    }
                }
                self.objects.remove(index);
            },
            None => {
                assert(!exists|k: int| is_last_holder(self.objects@, token, k));
            },
        }
    }

    /// The teleports due this tick: for each player standing on a
    /// teleporter, its connection, the map to go to and where to land there.
    pub fn do_teleports(&self) -> (r: Vec<(Token, String, Option<(u8, u8)>)>)
        ensures
            r@.map_values(|e: (Token, String, Option<(u8, u8)>)| (e.0, e.1@, e.2)) == teleports(self.objects@, self.teleporter@),
    {
        let mut retval: Vec<(Token, String, Option<(u8, u8)>)> = Vec::new();
        let len = self.objects.len();
        let mut i: usize = 0;
        while i < len
            invariant
                len == self.objects@.len(),
                i <= len,
                retval@.map_values(|e: (Token, String, Option<(u8, u8)>)| (e.0, e.1@, e.2)) == teleports(self.objects@.take(i as int), self.teleporter@),
            decreases len - i,
        {
            let index = self.objects[i].get_location();
            let ghost before = retval@;
            proof {
                let s = self.objects@.take(i + 1);
                assert(s.drop_last() =~= self.objects@.take(i as int));
                assert(s.last() == self.objects@[i as int]);
            }
            match self.objects[i].get_token() {
                Some(token) => {
                    match self.teleporter.get(&index) {
                        Some(tele) => {
                            retval.push(tele.teleport(token));
                            assert(retval@.map_values(|e: (Token, String, Option<(u8, u8)>)| (e.0, e.1@, e.2)) =~= before.map_values(
                                |e: (Token, String, Option<(u8, u8)>)| (e.0, e.1@, e.2),
                            ).push((token, tele.map@, if tele.use_default { None } else { Some((tele.x, tele.y)) })));
                        },
                        None => {},
                    }
                },
                None => {},
            }
            i = i + 1;
        }
        assert(self.objects@.take(len as int) =~= self.objects@);
        retval
    }

    /// Hands a command from connection `token` to its player. A click
    /// (`mouse x y ...`) sets the player's walking goal to the cell it aims
    /// at; anything else is queued.
    pub fn push_command(&mut self, token: Token, command: String)
        requires
            holder(old(self).objects@, token) matches Some(i) ==> (has_prefix(command@, "mouse"@)
                ==> click_goal(old(self).objects@[i].location(), old(self).width, command@) is Some),
        ensures
            final(self).width == old(self).width,
            final(self).height == old(self).height,
            final(self).tiles == old(self).tiles,
            final(self).teleporter == old(self).teleporter,
            final(self).start_x == old(self).start_x,
            final(self).start_y == old(self).start_y,
            command_pushed(old(self).objects@, final(self).objects@, old(self).width, token, command),
    {
        proof {
            reveal_strlit("mouse");
        }
        match self.find_player_with_token(token) {
            Some(index) => {
                if starts_with(command.as_str(), "mouse") {
                    let loc = self.objects[index].get_location();
                    let cv = chars_of(command.as_str());
                    let parts = split_words(&cv);
                    assert(parts@[1]@ == words(cv@)[1] && parts@[2]@ == words(cv@)[2]);
                    let mx = parse_i32(&parts[1]).unwrap();
                    let my = parse_i32(&parts[2]).unwrap();
                    let w = self.width as u32;
                    let oy = loc / w;
                    let ox = loc % w;
                    let dx = click_axis_exec(ox, mx);
                    let dy = click_axis_exec(oy, my);
                    let end = dy * w + dx;
                    let mut objects: Vec<MapObject> = Vec::new();
                    std::mem::swap(&mut objects, &mut self.objects);
                    objects[index].set_movement(end);
                    self.objects = objects;
                } else {
                    let mut objects: Vec<MapObject> = Vec::new();
                    std::mem::swap(&mut objects, &mut self.objects);
                    objects[index].push_command(command);
                    self.objects = objects;
                }
            },
            None => {},
        }
    }
}

/// `click_axis`, where it has a value.
fn click_axis_exec(o: u32, m: i32) -> (r: u32)
    requires
        click_axis(o, m as int) is Some,
    ensures
        r == click_axis(o, m as int).unwrap(),
{
    let s: i64 = (o as i32) as i64 + m as i64;
    if s > 6 {
        let t: u64 = o as u64 + (m as u32) as u64;
        (t - 6) as u32
    } else {
        0
    }
}


/// No object keeps others off cell `index`.
pub open spec fn cell_open(objs: Seq<MapObject>, index: int) -> bool {
    forall|j: int| 0 <= j < objs.len() ==> !blocks(#[trigger] objs[j], index as u32)
}

/// Rank of a direction for the search's termination.
pub open spec fn search_rank(d: Direction) -> int {
    match d {
        Direction::All => 1,
        _ => 0,
    }
}

/// Distance left to the edge in the direction of the search.
pub open spec fn search_room(w: u8, h: u8, x: int, y: int, d: Direction) -> int {
    match d {
        Direction::East => if x < w { w - x } else { 0 },
        Direction::West => if x >= 0 { x + 1 } else { 0 },
        Direction::South => if y < h { h - y } else { 0 },
        Direction::North => if y >= 0 { y + 1 } else { 0 },
        _ => 0,
    }
}

/// The cell where a player placed at `(x, y)` ends up: the cell itself if it
/// is on the map and open; else, from the first cell, the first open cell
/// going west, then east, then north, then south, each search keeping its
/// direction to the map's edge; `None` when none is found.
pub open spec fn open_cell_from(objs: Seq<MapObject>, w: u8, h: u8, x: int, y: int, d: Direction) -> Option<int>
    decreases search_rank(d), search_room(w, h, x, y, d),
{
    if !(0 <= x < w && 0 <= y < h) {
        None
    } else if cell_open(objs, y * w + x) {
        Some(y * w + x)
    } else {
        match d {
            Direction::All => {
                let west = if x > 0 { open_cell_from(objs, w, h, x - 1, y, Direction::West) } else { None };
                if west is Some {
                    west
                } else {
                    let east = open_cell_from(objs, w, h, x + 1, y, Direction::East);
                    if east is Some {
                        east
                    } else {
                        let north = if y > 0 { open_cell_from(objs, w, h, x, y - 1, Direction::North) } else { None };
                        if north is Some {
                            north
                        } else {
                            open_cell_from(objs, w, h, x, y + 1, Direction::South)
                        }
                    }
                }
            },
            Direction::East => open_cell_from(objs, w, h, x + 1, y, Direction::East),
            Direction::West => if x > 0 { open_cell_from(objs, w, h, x - 1, y, Direction::West) } else { None },
            Direction::South => open_cell_from(objs, w, h, x, y + 1, Direction::South),
            Direction::North => if y > 0 { open_cell_from(objs, w, h, x, y - 1, Direction::North) } else { None },
            _ => None,
        }
    }
}

/// The cell found is an open cell of the map, in the row searched (west or
/// east) or the column searched (north or south) from where the search began.
pub proof fn lemma_open_cell_on_map(objs: Seq<MapObject>, w: u8, h: u8, x: int, y: int, d: Direction)
    ensures
        open_cell_from(objs, w, h, x, y, d) matches Some(c) ==> {
            &&& 0 <= c < w as int * h as int
            &&& cell_open(objs, c)
            &&& (d is West || d is East) ==> c / (w as int) == y
            &&& (d is North || d is South) ==> c % (w as int) == x
            &&& d is All ==> c / (w as int) == y || c % (w as int) == x
        },
    decreases search_rank(d), search_room(w, h, x, y, d),
{
    if 0 <= x < w && 0 <= y < h {
        assert(0 <= y * w + x < w as int * h as int) by (nonlinear_arith)
            requires
                0 <= x < w,
                0 <= y < h,
        ;
        crate::game::pathing::lemma_cell_at(w as int, h as int, x, y);
        if !cell_open(objs, y * w + x) {
            match d {
                Direction::All => {
                    if x > 0 {
                        lemma_open_cell_on_map(objs, w, h, x - 1, y, Direction::West);
                    }
                    lemma_open_cell_on_map(objs, w, h, x + 1, y, Direction::East);
                    if y > 0 {
                        lemma_open_cell_on_map(objs, w, h, x, y - 1, Direction::North);
                    }
                    lemma_open_cell_on_map(objs, w, h, x, y + 1, Direction::South);
                },
                Direction::East => lemma_open_cell_on_map(objs, w, h, x + 1, y, Direction::East),
                Direction::West => if x > 0 {
                    lemma_open_cell_on_map(objs, w, h, x - 1, y, Direction::West);
                },
                Direction::South => lemma_open_cell_on_map(objs, w, h, x, y + 1, Direction::South),
                Direction::North => if y > 0 {
                    lemma_open_cell_on_map(objs, w, h, x, y - 1, Direction::North);
                },
                _ => {},
            }
        }
    }
}

/// The cell a joining player is placed from: the one given, else the map's
/// start.
pub open spec fn start_of(index: Option<(u8, u8)>, sx: u8, sy: u8) -> (u8, u8) {
    match index {
        Some(p) => p,
        None => (sx, sy),
    }
}

/// A fresh player of connection `token` with skin `skin`: 500 of 500 hit
/// points, speed 10, facing south, no goal and no commands.
pub open spec fn fresh_player(q: Player, token: Token, skin: Seq<char>) -> bool {
    &&& q.id == 0
    &&& q.token == token
    &&& q.tile@ == skin_art(skin)
    &&& q.hp == 500
    &&& q.max_hp == 500
    &&& q.name@ == "empty"@
    &&& q.speed == 10
    &&& q.commands@.len() == 0
    &&& q.direction == Direction::South
    &&& q.movement is None
    &&& q.movement_ticks == 0
}

/// `after` is `before` with a fresh player of connection `token` added on
/// the open cell found from `at` in every direction, or `before` itself when
/// no cell is open.
pub open spec fn player_added(
    before: Seq<MapObject>,
    after: Seq<MapObject>,
    w: u8,
    h: u8,
    token: Token,
    skin: Seq<char>,
    at: (u8, u8),
) -> bool {
    match open_cell_from(before, w, h, at.0 as int, at.1 as int, Direction::All) {
        Some(c) => after.drop_last() == before && after.len() == before.len() + 1
            && (after.last() matches MapObject::Player(q) && q.index == c && fresh_player(q, token, skin)),
        None => after == before,
    }
}

impl GameMap {
    /// Whether cell `index` is free of blocking objects.
    fn is_open(&self, index: u32) -> (r: bool)
        ensures
            r == cell_open(self.objects@, index as int),
    {
        let len = self.objects.len();
        let mut i: usize = 0;
        while i < len
            invariant
                len == self.objects@.len(),
                i <= len,
                forall|j: int| 0 <= j < i ==> !blocks(#[trigger] self.objects@[j], index),
            decreases len - i,
        {
            if self.objects[i].does_block_index(index) {
                return false;
            }
            i = i + 1;
        }
        true
    }

    /// The search of `open_cell_from`.
    fn find_open_cell(&self, x: u8, y: u8, direction: Direction) -> (r: Option<u32>)
        ensures
            r == (match open_cell_from(self.objects@, self.width, self.height, x as int, y as int, direction) {
                Some(c) => Some(c as u32),
                None => None::<u32>,
            }),
        decreases search_rank(direction), search_room(self.width, self.height, x as int, y as int, direction),
    {
        if !(x < self.width && y < self.height) {
            return None;
        }
        assert(y * self.width + x < 256 * 256) by (nonlinear_arith)
            requires
                x < self.width,
                y < self.height,
        ;
        let index: u32 = y as u32 * self.width as u32 + x as u32;
        if self.is_open(index) {
            return Some(index);
        }
        match direction {
            Direction::All => {
                let west = if x > 0 { self.find_open_cell(x - 1, y, Direction::West) } else { None };
                if west.is_some() {
                    return west;
                }
                let east = self.find_open_cell(x + 1, y, Direction::East);
                if east.is_some() {
                    return east;
                }
                let north = if y > 0 { self.find_open_cell(x, y - 1, Direction::North) } else { None };
                if north.is_some() {
                    return north;
                }
                self.find_open_cell(x, y + 1, Direction::South)
            },
            Direction::East => self.find_open_cell(x + 1, y, Direction::East),
            Direction::West => if x > 0 {
                self.find_open_cell(x - 1, y, Direction::West)
            } else {
                None
            },
            Direction::South => self.find_open_cell(x, y + 1, Direction::South),
            Direction::North => if y > 0 {
                self.find_open_cell(x, y - 1, Direction::North)
            } else {
                None
            },
            _ => None,
        }
    }

    /// Puts `player` on the open cell that `open_cell_from` finds from
    /// `(x, y)` going `direction`; whether one was found.
    fn add_player_at(&mut self, player: Player, x: u8, y: u8, direction: Direction) -> (r: bool)
        ensures
            r == open_cell_from(old(self).objects@, old(self).width, old(self).height, x as int, y as int, direction) is Some,
            match open_cell_from(old(self).objects@, old(self).width, old(self).height, x as int, y as int, direction) {
                Some(c) => final(self).objects@.len() == old(self).objects@.len() + 1
                    && final(self).objects@.drop_last() == old(self).objects@
                    && (final(self).objects@.last() matches MapObject::Player(q) && q.index == c
                    && same_identity(player, q) && q.tile == player.tile && q.commands == player.commands
                    && q.direction == player.direction && q.movement == player.movement
                    && q.movement_ticks == player.movement_ticks),
                None => final(self).objects@ == old(self).objects@,
            },
            final(self).width == old(self).width,
            final(self).height == old(self).height,
            final(self).tiles == old(self).tiles,
            final(self).teleporter == old(self).teleporter,
            final(self).start_x == old(self).start_x,
            final(self).start_y == old(self).start_y,
    {
        proof {
            lemma_open_cell_on_map(self.objects@, self.width, self.height, x as int, y as int, direction);
            assert(self.width as int * self.height as int <= 255 * 255) by (nonlinear_arith)
                requires
                    self.width <= 255,
                    self.height <= 255,
            ;
        }
        match self.find_open_cell(x, y, direction) {
            Some(index) => {
                let mut p = player;
                p.set_location(index);
                self.objects.push(MapObject::Player(p));
                assert(self.objects@.drop_last() =~= old(self).objects@);
                true
            },
            None => false,
        }
    }

    /// Adds a player with skin `name` for connection `token`, placed from
    /// `index` or else from the map's start (see `open_cell_from`); no player
    /// is added when no open cell is found.
    pub fn add_player(&mut self, token: Token, name: String, index: Option<(u8, u8)>)
        ensures
            player_added(
                old(self).objects@,
                final(self).objects@,
                old(self).width,
                old(self).height,
                token,
                name@,
                start_of(index, old(self).start_x, old(self).start_y),
            ),
            final(self).width == old(self).width,
            final(self).height == old(self).height,
            final(self).tiles == old(self).tiles,
            final(self).teleporter == old(self).teleporter,
            final(self).start_x == old(self).start_x,
            final(self).start_y == old(self).start_y,
    {
        let startx;
        let starty;
        match index {
            Some((x, y)) => {
                startx = x;
                starty = y;
            },
            None => {
                startx = self.start_x;
                starty = self.start_y;
            },
        }
        let player = Player::new(name, token);
        self.add_player_at(player, startx, starty, Direction::All);
        proof {
            reveal_strlit("empty");
        }
    }
}


/// Removing a connection's player right after it was added (as the last
/// object, the way `add_player` adds it) gives back the objects as they
/// were before.
pub proof fn lemma_remove_undoes_add(before: Seq<MapObject>, after: Seq<MapObject>, t: Token)
    requires
        after.len() == before.len() + 1,
        after.drop_last() == before,
        token_of(after.last()) == Some(t),
    ensures
        last_holder(after, t) == Some(before.len() as int),
        after.remove(before.len() as int) == before,
{
    let n = before.len() as int;
    assert(is_last_holder(after, t, n));
    let c = choose|k: int| is_last_holder(after, t, k);
    assert(c == n);
    assert(after.remove(n) =~= before);
}

/// A player added for a connection that had none on the map is the one the
/// map then finds for it: the last object.
pub proof fn lemma_added_player_found(before: Seq<MapObject>, after: Seq<MapObject>, t: Token)
    requires
        after.len() == before.len() + 1,
        after.drop_last() == before,
        token_of(after.last()) == Some(t),
        forall|j: int| 0 <= j < before.len() ==> token_of(#[trigger] before[j]) != Some(t),
    ensures
        holder(after, t) == Some(before.len() as int),
{
    let n = before.len() as int;
    assert forall|j: int| 0 <= j < n implies token_of(#[trigger] after[j]) != Some(t) by {
        assert(after[j] == after.drop_last()[j]);
    }
    assert(is_first_holder(after, t, n));
    let c = choose|k: int| is_first_holder(after, t, k);
    assert(c == n) by {
        if c < n {
            assert(after[c] == before[c]);
        }
    }
}

/// The object blocks the cell it stands on.
pub open spec fn blocks_own(o: MapObject) -> bool {
    blocks(o, o.location())
}

/// Some object of `objs` stands on cell `c` and blocks it.
pub open spec fn object_blocks(objs: Seq<MapObject>, c: int) -> bool {
    exists|j: int| 0 <= j < objs.len() && (#[trigger] objs[j]).location() == c && blocks_own(objs[j])
}

/// The blocked flags after one more pass: a cell stays blocked, or becomes
/// blocked by an object on it or by its terrain.
pub open spec fn blocked_step(objs: Seq<MapObject>, tiles: Seq<MapTile>, prev: Seq<bool>) -> Seq<bool> {
    Seq::new(prev.len(), |c: int| prev[c] || object_blocks(objs, c) || tiles[c].blocked)
}

/// The objects when object `k` is about to be updated: the first `k`
/// already updated, the others not yet.
pub open spec fn stage(before: Seq<MapObject>, after: Seq<MapObject>, k: int) -> Seq<MapObject> {
    after.take(k) + before.skip(k)
}

/// The blocked flags object `k` is updated with. The flags build up over
/// the tick: before each update every object marks its cell if it blocks it,
/// and every blocked terrain cell is marked.
pub open spec fn blocked_before(before: Seq<MapObject>, after: Seq<MapObject>, tiles: Seq<MapTile>, k: nat) -> Seq<bool>
    decreases k,
{
    let prev = if k == 0 {
        Seq::new(tiles.len(), |c: int| false)
    } else {
        blocked_before(before, after, tiles, (k - 1) as nat)
    };
    blocked_step(stage(before, after, k as int), tiles, prev)
}

/// All messages, in order.
pub open spec fn all_replies(rs: Seq<Option<Vec<Response>>>) -> Seq<Response>
    decreases rs.len(),
{
    if rs.len() == 0 {
        Seq::empty()
    } else {
        all_replies(rs.drop_last()) + match rs.last() {
            Some(v) => v@,
            None => Seq::empty(),
        }
    }
}

/// Every object stands on a cell with terrain and can be updated.
pub open spec fn ready_to_execute(m: GameMap) -> bool {
    forall|i: int| 0 <= i < m.objects@.len() ==> (#[trigger] m.objects@[i]).location() < m.tiles@.len()
        && m.objects@[i].can_update(m.width, m.height, m.tiles@.len())
}

proof fn lemma_blocked_before_prefix(before: Seq<MapObject>, a: Seq<MapObject>, b: Seq<MapObject>, tiles: Seq<MapTile>, k: nat)
    requires
        k <= a.len(),
        k <= b.len(),
        a.take(k as int) == b.take(k as int),
    ensures
        blocked_before(before, a, tiles, k) == blocked_before(before, b, tiles, k),
    decreases k,
{
    assert(stage(before, a, k as int) =~= stage(before, b, k as int));
    if k > 0 {
        assert(a.take(k - 1) =~= a.take(k as int).take(k - 1));
        assert(b.take(k - 1) =~= b.take(k as int).take(k - 1));
        lemma_blocked_before_prefix(before, a, b, tiles, (k - 1) as nat);
    }
}

proof fn lemma_update_stays(o: MapObject, n: MapObject, w: u8, h: u8, bl: Seq<bool>, r: Option<Vec<Response>>, len: nat)
    requires
        object_updated(o, n, w, h, bl, r),
        o.can_update(w, h, len),
        o.location() < len,
    ensures
        n.location() < len,
{
}

/// Blocked terrain is blocked at every turn of a tick: the flags each object
/// is updated with have one entry per terrain cell and mark every cell whose
/// terrain is blocked.
pub proof fn lemma_blocked_terrain_marked(before: Seq<MapObject>, after: Seq<MapObject>, tiles: Seq<MapTile>, k: nat, c: int)
    requires
        0 <= c < tiles.len(),
        tiles[c].blocked,
    ensures
        blocked_before(before, after, tiles, k).len() == tiles.len(),
        blocked_before(before, after, tiles, k)[c],
    decreases k,
{
    if k > 0 {
        lemma_blocked_terrain_marked(before, after, tiles, (k - 1) as nat, c);
    }
}

/// In a tick no object moves onto a cell whose terrain is blocked: an object
/// that ends on another cell ends on a terrain cell that is not blocked.
pub proof fn lemma_tick_avoids_blocked_terrain(before: GameMap, after: Seq<MapObject>, replies: Seq<Response>)
    requires
        ready_to_execute(before),
        ticked(before, after, replies),
    ensures
        forall|k: int| 0 <= k < before.objects@.len() && (#[trigger] after[k]).location() != before.objects@[k].location()
            ==> after[k].location() < before.tiles@.len() && !before.tiles@[after[k].location() as int].blocked,
{
    let rs = choose|rs: Seq<Option<Vec<Response>>>| #![trigger all_replies(rs)]
        rs.len() == before.objects@.len() && replies == all_replies(rs)
        && forall|k: int| 0 <= k < rs.len() ==> object_updated(
            #[trigger] before.objects@[k],
            after[k],
            before.width,
            before.height,
            blocked_before(before.objects@, after, before.tiles@, k as nat),
            rs[k],
        );
    let tiles = before.tiles@;
    assert forall|k: int| 0 <= k < before.objects@.len() && (#[trigger] after[k]).location() != before.objects@[k].location()
        implies after[k].location() < tiles.len() && !tiles[after[k].location() as int].blocked by {
        let o = before.objects@[k];
        let n = after[k];
        let bl = blocked_before(before.objects@, after, tiles, k as nat);
        assert(object_updated(o, n, before.width, before.height, bl, rs[k]));
        lemma_update_stays(o, n, before.width, before.height, bl, rs[k], tiles.len());
        match o {
            MapObject::Player(p) => {
                let q = n->Player_0;
                assert(q.index != p.index);
                assert(!bl[q.index as int]);
                if tiles[q.index as int].blocked {
                    lemma_blocked_terrain_marked(before.objects@, after, tiles, k as nat, q.index as int);
                }
            },
            _ => {},
        }
    }
}

/// Marks the cells that objects stand on and block.
fn mark_objects(objects: &Vec<MapObject>, blocked: &mut Vec<bool>)
    requires
        forall|i: int| 0 <= i < objects@.len() ==> (#[trigger] objects@[i]).location() < old(blocked)@.len(),
    ensures
        final(blocked)@ == Seq::new(old(blocked)@.len(), |c: int| old(blocked)@[c] || object_blocks(objects@, c)),
{
    let ghost b0 = blocked@;
    let n = objects.len();
    let mut j: usize = 0;
    while j < n
        invariant
            n == objects@.len(),
            j <= n,
            forall|i: int| 0 <= i < objects@.len() ==> (#[trigger] objects@[i]).location() < b0.len(),
            blocked@ == Seq::new(b0.len(), |c: int| b0[c] || object_blocks(objects@.take(j as int), c)),
        decreases n - j,
    {
        let index = objects[j].get_location();
        let ghost before = blocked@;
        if !blocked[index as usize] {
            let b = objects[j].does_block_index(index);
            blocked.set(index as usize, b);
        }
        proof {
            let t = objects@.take(j + 1);
            assert forall|c: int| 0 <= c < b0.len() implies blocked@[c] == (b0[c] || object_blocks(t, c)) by {
                if object_blocks(objects@.take(j as int), c) {
                    let k = choose|k: int| 0 <= k < j && (#[trigger] objects@.take(j as int)[k]).location() == c && blocks_own(objects@.take(j as int)[k]);
                    assert(t[k] == objects@.take(j as int)[k]);
                }
                if object_blocks(t, c) {
                    let k = choose|k: int| 0 <= k < j + 1 && (#[trigger] t[k]).location() == c && blocks_own(t[k]);
                    if k < j {
                        assert(objects@.take(j as int)[k] == t[k]);
                    } else {
                        assert(t[k] == objects@[j as int]);
                    }
                }
                if c == index && blocks_own(objects@[j as int]) {
                    assert(t[j as int] == objects@[j as int]);
                }
            }
            assert(blocked@ =~= Seq::new(b0.len(), |c: int| b0[c] || object_blocks(t, c)));
        }
        j = j + 1;
    }
    assert(objects@.take(n as int) =~= objects@);
}

/// Marks the cells whose terrain is blocked.
fn mark_tiles(tiles: &Vec<MapTile>, blocked: &mut Vec<bool>)
    requires
        old(blocked)@.len() == tiles@.len(),
    ensures
        final(blocked)@ == Seq::new(old(blocked)@.len(), |c: int| old(blocked)@[c] || tiles@[c].blocked),
{
    let ghost b0 = blocked@;
    let n = tiles.len();
    let mut t: usize = 0;
    while t < n
        invariant
            n == tiles@.len(),
            b0.len() == n,
            t <= n,
            blocked@ == Seq::new(n as nat, |c: int| b0[c] || (c < t && tiles@[c].blocked)),
        decreases n - t,
    {
        if !blocked[t] {
            blocked.set(t, tiles[t].blocked);
        }
        assert(blocked@ =~= Seq::new(n as nat, |c: int| b0[c] || (c < t + 1 && tiles@[c].blocked)));
        t = t + 1;
    }
    assert(blocked@ =~= Seq::new(b0.len(), |c: int| b0[c] || tiles@[c].blocked));
}

/// One tick of a map: each object is updated in order with the cells
/// blocked at its turn (`object_updated`), giving `after`, and `replies` are
/// the messages of all the updates in order.
pub open spec fn ticked(before: GameMap, after: Seq<MapObject>, replies: Seq<Response>) -> bool {
    exists|rs: Seq<Option<Vec<Response>>>| #![trigger all_replies(rs)]
        rs.len() == before.objects@.len() && replies == all_replies(rs)
        && forall|k: int| 0 <= k < rs.len() ==> object_updated(
            #[trigger] before.objects@[k],
            after[k],
            before.width,
            before.height,
            blocked_before(before.objects@, after, before.tiles@, k as nat),
            rs[k],
        )
}

impl GameMap {
    /// One tick: each object in turn is updated with the blocked flags as
    /// they build up (see `blocked_before`); gives all messages in order.
    pub fn execute(&mut self) -> (r: Vec<Response>)
        requires
            ready_to_execute(*old(self)),
        ensures
            final(self).width == old(self).width,
            final(self).height == old(self).height,
            final(self).tiles == old(self).tiles,
            final(self).teleporter == old(self).teleporter,
            final(self).start_x == old(self).start_x,
            final(self).start_y == old(self).start_y,
            final(self).objects@.len() == old(self).objects@.len(),
            ticked(*old(self), final(self).objects@, r@),
    {
        let mut retval: Vec<Response> = Vec::new();
        let width = self.width;
        let height = self.height;
        let tl = self.tiles.len();
        let mut blocked: Vec<bool> = Vec::new();
        while blocked.len() < tl
            invariant
                blocked@.len() <= tl,
                forall|c: int| 0 <= c < blocked@.len() ==> !blocked@[c],
            decreases tl - blocked@.len(),
        {
            blocked.push(false);
        }
        assert(blocked@ =~= Seq::new(tl as nat, |c: int| false));
        let mut objects: Vec<MapObject> = Vec::new();
        std::mem::swap(&mut objects, &mut self.objects);
        let ghost before = objects@;
        let ghost tiles = self.tiles@;
        let ghost mut rs: Seq<Option<Vec<Response>>> = Seq::empty();
        let n = objects.len();
        let mut i: usize = 0;
        while i < n
            invariant
                n == objects@.len(),
                n == before.len(),
                i <= n,
                tl == tiles.len(),
                tiles == self.tiles@,
                width == self.width,
                height == self.height,
                forall|k: int| 0 <= k < before.len() ==> (#[trigger] before[k]).location() < tl
                    && before[k].can_update(width, height, tl as nat),
                objects@.skip(i as int) == before.skip(i as int),
                forall|k: int| 0 <= k < n ==> (#[trigger] objects@[k]).location() < tl,
                blocked@.len() == tl,
                blocked@ == (if i == 0 { Seq::new(tl as nat, |c: int| false) } else { blocked_before(before, objects@, tiles, (i - 1) as nat) }),
                rs.len() == i,
                retval@ == all_replies(rs),
                forall|k: int| 0 <= k < i ==> object_updated(
                    #[trigger] before[k],
                    objects@[k],
                    width,
                    height,
                    blocked_before(before, objects@, tiles, k as nat),
                    rs[k],
                ),
            decreases n - i,
        {
            let ghost cur = objects@;
            assert(stage(before, cur, i as int) =~= cur) by {
                assert(cur =~= cur.take(i as int) + cur.skip(i as int));
            }
            mark_objects(&objects, &mut blocked);
            mark_tiles(&self.tiles, &mut blocked);
            proof {
                let prev = if i == 0 { Seq::new(tl as nat, |c: int| false) } else { blocked_before(before, cur, tiles, (i - 1) as nat) };
                assert(blocked@ =~= blocked_step(stage(before, cur, i as int), tiles, prev));
                assert(blocked@ == blocked_before(before, cur, tiles, i as nat));
                assert(objects@[i as int] == before[i as int]) by {
                    assert(objects@.skip(i as int)[0] == before.skip(i as int)[0]);
                }
            }
            let responses = objects[i].update(width, height, &blocked);
            let ghost after = objects@;
            proof {
                assert(after =~= cur.update(i as int, after[i as int]));
                lemma_update_stays(before[i as int], after[i as int], width, height, blocked@, responses, tl as nat);
                assert(after.take(i + 1).take(i as int) =~= cur.take(i as int));
                assert forall|k: int| 0 <= k <= i implies #[trigger] blocked_before(before, after, tiles, k as nat) == blocked_before(before, cur, tiles, k as nat) by {
                    assert(after.take(k) =~= cur.take(k));
                    lemma_blocked_before_prefix(before, after, cur, tiles, k as nat);
                }
                assert(after.skip(i + 1) =~= before.skip(i + 1)) by {
                    assert forall|k: int| 0 <= k < after.skip(i + 1).len() implies #[trigger] after.skip(i + 1)[k] == before.skip(i + 1)[k] by {
                        assert(cur.skip(i as int)[k + 1] == before.skip(i as int)[k + 1]);
                    }
                }
            }
            let ghost old_rs = rs;
            proof {
                rs = rs.push(responses);
            }
            match responses {
                Some(v) => {
                    let mut v = v;
                    retval.append(&mut v);
                },
                None => {},
            }
            proof {
                assert(rs.drop_last() =~= old_rs);
                assert forall|k: int| 0 <= k < i + 1 implies object_updated(
                    #[trigger] before[k],
                    objects@[k],
                    width,
                    height,
                    blocked_before(before, objects@, tiles, k as nat),
                    rs[k],
                ) by {
                    if k < i {
                        assert(objects@[k] == cur[k]);
                    }
                }
            }
            i = i + 1;
        }
        self.objects = objects;
        proof {
            assert(rs.len() == before.len() && retval@ == all_replies(rs));
        }
        retval
    }
}


/// The art of a map maker's path where it differs from the art's file name.
pub open spec fn converted(tile: Seq<char>) -> Seq<char> {
    if tile == "scenery/sign1"@ {
        "indoor/sign1"@
    } else if tile == "scenery/caveE"@ {
        "scenery/cave2"@
    } else if tile == "terrain/dark_earth"@ {
        "terrain/mud"@
    } else {
        tile
    }
}

/// The drawing order class of terrain art.
pub open spec fn priority_class(tile: Seq<char>) -> u32 {
    if has_sub(tile, "grass"@) {
        2
    } else if has_sub(tile, "shallow"@) {
        1
    } else if has_sub(tile, "water"@) {
        3
    } else if has_sub(tile, "trees"@) || has_sub(tile, "forest"@) || has_sub(tile, "wall"@) {
        4
    } else if has_sub(tile, "lava"@) {
        10000
    } else {
        0
    }
}

/// An object as drawn: its art and its column and row on the screen.
pub struct ScreenObject {
    pub tile: String,
    pub x: u8,
    pub y: u8,
}

impl ScreenObject {
    /// The object drawn with art `tile` at `(x, y)`.
    pub fn new(tile: String, x: u8, y: u8) -> (r: ScreenObject)
        ensures
            r.tile@ == converted(tile@),
            r.x == x,
            r.y == y,
    {
        ScreenObject { tile: MapScreen::convert_terrain(tile), x: x, y: y }
    }
}

/// A cell of terrain as drawn.
pub struct ScreenTerrain {
    pub tile: String,
}

impl ScreenTerrain {
    /// Terrain drawn with art `tile`.
    pub fn new(tile: String) -> (r: ScreenTerrain)
        ensures
            r.tile@ == converted(tile@),
    {
        ScreenTerrain { tile: MapScreen::convert_terrain(tile) }
    }

    /// The priority that decides which terrain's border is drawn over its
    /// neighbour's: the class of the art in bits 17 and up, and 7 in the top
    /// three bits.
    pub fn get_priority(&self) -> (r: u32)
        ensures
            r == (priority_class(self.tile@) << 17u32) | (7u32 << 29u32),
    {
        let t = self.tile.as_str();
        let priority: u32;
        if contains(t, "grass") {
            priority = 2u32 << 17u32;
        } else if contains(t, "shallow") {
            priority = 1u32 << 17u32;
        } else if contains(t, "water") {
            priority = 3u32 << 17u32;
        } else if contains(t, "trees") || contains(t, "forest") || contains(t, "wall") {
            priority = 4u32 << 17u32;
        } else if contains(t, "lava") {
            priority = 10000u32 << 17u32;
        } else {
            priority = 0u32 << 17u32;
        }
        priority | (7u32 << 29u32)
    }
}

/// The view around a cell: the terrain of a window `width` by `height`
/// cells, column by column, and the objects to draw.
pub struct MapScreen {
    pub width: i16,
    pub height: i16,
    pub terrain: Vec<ScreenTerrain>,
    pub objects: Vec<ScreenObject>,
}

/// The first column (or row) of a window of `size` cells, plus one cell on
/// each side, around column (or row) `c`.
pub open spec fn window_start(c: u32, size: u8) -> int {
    c as int - (size as int / 2 + 1)
}

/// The number of the cell at column `cx` and row `cy` of a map `w` wide.
pub open spec fn cell_at(w: u8, cx: int, cy: int) -> int {
    cy * w + cx
}

/// The art drawn for the cell at column `cx` and row `cy`: the converted
/// terrain art, or empty terrain off the map.
pub open spec fn screen_cell(map: GameMap, cx: int, cy: int) -> Seq<char> {
    if 0 <= cx < map.width && 0 <= cy < map.height {
        converted(map.tiles@[cell_at(map.width, cx, cy)].tile@)
    } else {
        "terrain/empty"@
    }
}

/// The terrain drawn for a window whose first column and row are `sx` and
/// `sy`, `cols` by `rows` cells, column by column.
pub open spec fn window_terrain(map: GameMap, sx: int, sy: int, cols: int, rows: int) -> Seq<Seq<char>> {
    Seq::new((cols * rows) as nat, |k: int| screen_cell(map, sx + k / rows, sy + k % rows))
}

/// The objects drawn for a window whose first column and row are `sx` and
/// `sy`, `cols` by `rows` cells: each object inside the window on the map,
/// with its converted art and its place counted from the cell after the
/// window's corner (an object on the window's first column or row gets 255
/// there, one before 0 in a byte).
pub open spec fn window_objects(objs: Seq<MapObject>, w: u8, h: u8, sx: int, sy: int, cols: int, rows: int) -> Seq<(Seq<char>, u8, u8)>
    decreases objs.len(),
{
    if objs.len() == 0 {
        Seq::empty()
    } else {
        let rest = window_objects(objs.drop_last(), w, h, sx, sy, cols, rows);
        let o = objs.last();
        let ox = o.location() % (w as u32);
        let oy = o.location() / (w as u32);
        if sx <= ox < sx + cols && ox < w && sy <= oy < sy + rows && oy < h {
            rest.push((converted(art_of(o)), (ox - sx - 1) as u8, (oy - sy - 1) as u8))
        } else {
            rest
        }
    }
}

/// The window's terrain cells on the map are cells with terrain.
pub open spec fn window_on_tiles(map: GameMap, sx: int, sy: int, cols: int, rows: int) -> bool {
    forall|i: int, j: int|
        0 <= i < cols && 0 <= j < rows && 0 <= sx + i < map.width && 0 <= sy + j < map.height
            ==> #[trigger] cell_at(map.width, sx + i, sy + j) < map.tiles@.len()
}

impl MapScreen {
    /// The view of `map` around cell `(x, y)` for a window of `size_x` by
    /// `size_y` cells and one more on each side. The terrain is drawn only
    /// when `(x, y)` is on the map.
    pub fn new(map: &GameMap, x: u32, y: u32, size_x: u8, size_y: u8) -> (r: MapScreen)
        requires
            size_x <= 253,
            size_y <= 253,
            map.width > x && map.height > y ==> window_on_tiles(*map, window_start(x, size_x), window_start(y, size_y),
                size_x + 2, size_y + 2),
            map.objects@.len() > 0 ==> map.width > 0,
        ensures
            r.width == size_x + 2,
            r.height == size_y + 2,
            r.terrain@.map_values(|t: ScreenTerrain| t.tile@) == (if map.width > x && map.height > y {
                window_terrain(*map, window_start(x, size_x), window_start(y, size_y), size_x + 2, size_y + 2)
            } else {
                Seq::empty()
            }),
            r.objects@.map_values(|o: ScreenObject| (o.tile@, o.x, o.y)) == window_objects(map.objects@, map.width,
                map.height, window_start(x, size_x), window_start(y, size_y), size_x + 2, size_y + 2),
    {
        let startx: i64 = x as i64 - (size_x as i64 / 2 + 1);
        let starty: i64 = y as i64 - (size_y as i64 / 2 + 1);
        let cols: i64 = size_x as i64 + 2;
        let rows: i64 = size_y as i64 + 2;
        let ghost gsx = window_start(x, size_x);
        let ghost gsy = window_start(y, size_y);
        let mut ter: Vec<ScreenTerrain> = Vec::new();
        let mut obj: Vec<ScreenObject> = Vec::new();
        let w = map.width as i64;
        let h = map.height as i64;
        if (map.width as u32) > x && (map.height as u32) > y {
            let mut i: i64 = 0;
            while i < cols
                invariant
                    0 <= i <= cols,
                    cols == size_x + 2,
                    rows == size_y + 2,
                    startx == gsx,
                    starty == gsy,
                    w == map.width,
                    h == map.height,
                    size_x <= 253,
                    size_y <= 253,
                    window_on_tiles(*map, gsx, gsy, cols as int, rows as int),
                    -200 <= startx <= 300,
                    -200 <= starty <= 300,
                    ter@.map_values(|t: ScreenTerrain| t.tile@) == window_terrain(*map, gsx, gsy, i as int, rows as int),
                decreases cols - i,
            {
                let mut j: i64 = 0;
                while j < rows
                    invariant
                        0 <= i < cols,
                        0 <= j <= rows,
                        cols == size_x + 2,
                        rows == size_y + 2,
                        startx == gsx,
                        starty == gsy,
                        w == map.width,
                        h == map.height,
                        size_x <= 253,
                        size_y <= 253,
                        window_on_tiles(*map, gsx, gsy, cols as int, rows as int),
                        -200 <= startx <= 300,
                        -200 <= starty <= 300,
                        ter@.map_values(|t: ScreenTerrain| t.tile@) == window_terrain(*map, gsx, gsy, i as int, rows as int)
                            + Seq::new(j as nat, |k: int| screen_cell(*map, gsx + i, gsy + k)),
                    decreases rows - j,
                {
                    let cx = startx + i;
                    let cy = starty + j;
                    let ghost before = ter@.map_values(|t: ScreenTerrain| t.tile@);
                    if cx >= 0 && cx < w && cy >= 0 && cy < h {
                        assert(cell_at(map.width, gsx + i, gsy + j) < map.tiles@.len());
                        assert(cy * w + cx < 256 * 256) by (nonlinear_arith)
                            requires
                                0 <= cx < w,
                                0 <= cy < h,
                                w <= 255,
                                h <= 255,
                        ;
                        let index = (cy * w + cx) as usize;
                        let tile = map.tiles[index].tile.clone();
                        let st = ScreenTerrain::new(tile);
                        assert(st.tile@ == screen_cell(*map, gsx + i, gsy + j));
                        ter.push(st);
                    } else {
                        proof {
                            reveal_strlit("terrain/empty");
                            reveal_strlit("scenery/sign1");
                            reveal_strlit("scenery/caveE");
                            reveal_strlit("terrain/dark_earth");
                            assert("terrain/empty"@[0] != "scenery/sign1"@[0]);
                            assert("terrain/empty"@[0] != "scenery/caveE"@[0]);
                            assert("terrain/empty"@.len() != "terrain/dark_earth"@.len());
                        }
                        let st = ScreenTerrain::new("terrain/empty".to_owned());
                        assert(st.tile@ == screen_cell(*map, gsx + i, gsy + j));
                        ter.push(st);
                    }
                    proof {
                        let f = |k: int| screen_cell(*map, gsx + i, gsy + k);
                        assert(ter@.map_values(|t: ScreenTerrain| t.tile@) =~= before.push(screen_cell(*map, gsx + i, gsy + j)));
                        assert(Seq::new(j as nat, f).push(screen_cell(*map, gsx + i, gsy + j)) =~= Seq::new((j + 1) as nat, f));
                        assert(window_terrain(*map, gsx, gsy, i as int, rows as int) + Seq::new(j as nat, f).push(screen_cell(*map, gsx + i, gsy + j))
                            =~= (window_terrain(*map, gsx, gsy, i as int, rows as int) + Seq::new(j as nat, f)).push(screen_cell(*map, gsx + i, gsy + j)));
                    }
                    j = j + 1;
                }
                proof {
                    let a = window_terrain(*map, gsx, gsy, i as int, rows as int);
                    let b = Seq::new(rows as nat, |k: int| screen_cell(*map, gsx + i, gsy + k));
                    let c = window_terrain(*map, gsx, gsy, i + 1, rows as int);
                    let r = rows as int;
                    let ii = i as int;
                    assert((ii + 1) * r == ii * r + r) by (nonlinear_arith);
                    assert forall|k: int| 0 <= k < c.len() implies #[trigger] c[k] == (a + b)[k] by {
                        if k >= ii * r {
                            let m = k - ii * r;
                            vstd::arithmetic::div_mod::lemma_fundamental_div_mod_converse(k, r, ii, m);
                        }
                    }
                    assert(c =~= a + b);
                }
                i = i + 1;
            }
        }
        let n = map.objects.len();
        let mut k: usize = 0;
        while k < n
            invariant
                n == map.objects@.len(),
                k <= n,
                n > 0 ==> map.width > 0,
                -200 <= startx <= 0x1_0000_0000,
                -200 <= starty <= 0x1_0000_0000,
                startx == gsx,
                starty == gsy,
                w == map.width,
                h == map.height,
                obj@.map_values(|o: ScreenObject| (o.tile@, o.x, o.y)) == window_objects(map.objects@.take(k as int), map.width,
                    map.height, gsx, gsy, cols as int, rows as int),
                cols == size_x + 2,
                rows == size_y + 2,
            decreases n - k,
        {
            let object = &map.objects[k];
            let index = object.get_location();
            let object_x = index % (map.width as u32);
            let object_y = index / (map.width as u32);
            let ghost before = obj@.map_values(|o: ScreenObject| (o.tile@, o.x, o.y));
            proof {
                let t = map.objects@.take(k + 1);
                assert(t.drop_last() =~= map.objects@.take(k as int));
                assert(t.last() == map.objects@[k as int]);
            }
            if object_x as i64 >= startx && (object_x as i64) < startx + cols && (object_x as i64) < w
                && object_y as i64 >= starty && (object_y as i64) < starty + rows && (object_y as i64) < h
                && object.is_visible(map) {
                let sx = (object_x as i64 - startx - 1) as u8;
                let sy = (object_y as i64 - starty - 1) as u8;
                obj.push(ScreenObject::new(object.get_tile(), sx, sy));
                assert(obj@.map_values(|o: ScreenObject| (o.tile@, o.x, o.y)) =~= before.push(
                    (converted(art_of(map.objects@[k as int])), sx, sy),
                ));
            }
            k = k + 1;
        }
        assert(map.objects@.take(n as int) =~= map.objects@);
        MapScreen { width: size_x as i16 + 2, height: size_y as i16 + 2, terrain: ter, objects: obj }
    }

    /// The art of a map maker's path, where it differs (see `converted`).
    pub fn convert_terrain(tile: String) -> (r: String)
        ensures
            r@ == converted(tile@),
    {
        if str_eq(tile.as_str(), "scenery/sign1") {
            "indoor/sign1".to_owned()
        } else if str_eq(tile.as_str(), "scenery/caveE") {
            "scenery/cave2".to_owned()
        } else if str_eq(tile.as_str(), "terrain/dark_earth") {
            "terrain/mud".to_owned()
        } else {
            tile
        }
    }
}

/// The view of connection `token` can be drawn: it has no player, or the
/// map has columns and, when its player stands on the grid, terrain for every
/// cell of the 15 by 15 window around it.
pub open spec fn show_ok(map: GameMap, token: Token) -> bool {
    holder(map.objects@, token) matches Some(i) ==> {
        let loc = map.objects@[i].location();
        let x = loc % (map.width as u32);
        let y = loc / (map.width as u32);
        &&& map.width > 0
        &&& (map.width > x && map.height > y) ==> window_on_tiles(map, window_start(x, 13), window_start(y, 13), 15, 15)
    }
}

/// The view sent to connection `token`: none without a player, else the
/// 15 by 15 cells around its player (its viewport of 13 and a border), the
/// terrain only when the player stands on the grid.
pub open spec fn portion_of(map: GameMap, token: Token, r: Option<MapScreen>) -> bool {
    match holder(map.objects@, token) {
        None => r is None,
        Some(i) => r matches Some(screen) && {
            let loc = map.objects@[i].location();
            let x = loc % (map.width as u32);
            let y = loc / (map.width as u32);
            &&& screen.width == 15 && screen.height == 15
            &&& screen.terrain@.map_values(|t: ScreenTerrain| t.tile@) == (if map.width > x && map.height > y {
                window_terrain(map, window_start(x, 13), window_start(y, 13), 15, 15)
            } else {
                Seq::empty()
            })
            &&& screen.objects@.map_values(|o: ScreenObject| (o.tile@, o.x, o.y)) == window_objects(map.objects@,
                map.width, map.height, window_start(x, 13), window_start(y, 13), 15, 15)
        },
    }
}

impl GameMap {
    /// The view around the player of connection `token`, if it is on the
    /// map: a window the size of the player's view around its cell.
    pub fn send_portion(&self, token: Token) -> (r: Option<MapScreen>)
        requires
            show_ok(*self, token),
        ensures
            portion_of(*self, token, r),
    {
        match self.find_player_with_token(token) {
            Some(index) => {
                let p = &self.objects[index];
                let x = p.get_location() % self.width as u32;
                let y = p.get_location() / self.width as u32;
                let (view_x, view_y) = p.get_viewport();
                assert(view_x == 13 && view_y == 13);
                Some(MapScreen::new(self, x, y, view_x, view_y))
            },
            None => None,
        }
    }
}


impl GameMap {
    /// `push_command` can take `command` (by its characters) from connection
    /// `token`.
    pub open spec fn can_push_spec(&self, token: Token, command: Seq<char>) -> bool {
        holder(self.objects@, token) matches Some(i) ==> (has_prefix(command, "mouse"@)
            ==> click_goal(self.objects@[i].location(), self.width, command) is Some)
    }

    /// Whether `execute` can run (see `ready_to_execute`).
    pub fn ready(&self) -> (r: bool)
        ensures
            r == ready_to_execute(*self),
    {
        let n = self.objects.len();
        let len = self.tiles.len();
        let mut i: usize = 0;
        while i < n
            invariant
                n == self.objects@.len(),
                len == self.tiles@.len(),
                i <= n,
                forall|k: int| 0 <= k < i ==> (#[trigger] self.objects@[k]).location() < len
                    && self.objects@[k].can_update(self.width, self.height, len as nat),
            decreases n - i,
        {
            let o = &self.objects[i];
            if o.get_location() as usize >= len {
                return false;
            }
            let ok = match o {
                MapObject::Player(p) => {
                    assert(self.width as int * self.height as int <= 255 * 255) by (nonlinear_arith)
                        requires
                            self.width <= 255,
                            self.height <= 255,
                    ;
                    let cells = (self.width as u64) * (self.height as u64);
                    p.command_readable_now() && match p.next_end_target() {
                        Some(e) => (e as u64) >= cells || ((p.index as u64) < cells && len as u64 >= cells),
                        None => true,
                    }
                },
                _ => true,
            };
            if !ok {
                return false;
            }
            i = i + 1;
        }
        true
    }

    /// Whether `push_command` can take `command` from connection `token`.
    pub fn can_push(&self, token: Token, command: &String) -> (r: bool)
        ensures
            r == (holder(self.objects@, token) matches Some(i) ==> (has_prefix(command@, "mouse"@)
                ==> click_goal(self.objects@[i].location(), self.width, command@) is Some)),
    {
        proof {
            reveal_strlit("mouse");
        }
        match self.find_player_with_token(token) {
            None => true,
            Some(index) => {
                if !starts_with(command.as_str(), "mouse") {
                    return true;
                }
                let loc = self.objects[index].get_location();
                let cv = chars_of(command.as_str());
                let parts = split_words(&cv);
                if parts.len() < 3 || self.width == 0 {
                    return false;
                }
                assert(parts@[1]@ == words(cv@)[1] && parts@[2]@ == words(cv@)[2]);
                let mx = match parse_i32(&parts[1]) {
                    Some(v) => v,
                    None => {
                        return false;
                    },
                };
                let my = match parse_i32(&parts[2]) {
                    Some(v) => v,
                    None => {
                        return false;
                    },
                };
                let w = self.width as u32;
                let dx = match click_axis_checked(loc % w, mx) {
                    Some(v) => v,
                    None => {
                        return false;
                    },
                };
                let dy = match click_axis_checked(loc / w, my) {
                    Some(v) => v,
                    None => {
                        return false;
                    },
                };
                assert((dy as u64) * (w as u64) + (dx as u64) <= 0xffff_ffff * 256 + 0xffff_ffff) by (nonlinear_arith)
                    requires
                        dy <= 0xffff_ffff,
                        w <= 255,
                        dx <= 0xffff_ffff,
                ;
                (dy as u64) * (w as u64) + (dx as u64) <= 0xffff_ffff
            },
        }
    }

    /// Whether `send_portion` can draw the view of connection `token`.
    pub fn can_show(&self, token: Token) -> (r: bool)
        ensures
            r == show_ok(*self, token),
    {
        match self.find_player_with_token(token) {
            None => true,
            Some(index) => {
                if self.width == 0 {
                    return false;
                }
                let loc = self.objects[index].get_location();
                let x = loc % self.width as u32;
                let y = loc / self.width as u32;
                if !(x < self.width as u32 && y < self.height as u32) {
                    return true;
                }
                let w = self.width as i64;
                let h = self.height as i64;
                let sx = x as i64 - 7;
                let sy = y as i64 - 7;
                let mx = if sx + 14 < w - 1 { sx + 14 } else { w - 1 };
                let my = if sy + 14 < h - 1 { sy + 14 } else { h - 1 };
                assert(0 <= my * w <= 255 * 255) by (nonlinear_arith)
                    requires
                        0 <= my < h,
                        h <= 255,
                        0 <= w <= 255,
                ;
                let last = my * w + mx;
                let ok = (last as usize) < self.tiles.len();
                proof {
                    let gsx = window_start(x, 13);
                    let gsy = window_start(y, 13);
                    assert(gsx == sx && gsy == sy);
                    assert(0 <= mx < w && 0 <= my < h);
                    if ok {
                        assert forall|i: int, j: int|
                            0 <= i < 15 && 0 <= j < 15 && 0 <= gsx + i < self.width && 0 <= gsy + j < self.height
                                implies #[trigger] cell_at(self.width, gsx + i, gsy + j) < self.tiles@.len() by {
                            let cx = gsx + i;
                            let cy = gsy + j;
                            assert(cy * w + cx <= my * w + mx) by (nonlinear_arith)
                                requires
                                    0 <= cx <= mx,
                                    0 <= cy <= my,
                                    mx < w,
                            ;
                        }
                    } else {
                        assert(cell_at(self.width, gsx + (mx - sx), gsy + (my - sy)) >= self.tiles@.len());
                    }
                }
                ok
            },
        }
    }
}

/// `click_axis`.
fn click_axis_checked(o: u32, m: i32) -> (r: Option<u32>)
    ensures
        r == (match click_axis(o, m as int) {
            Some(v) => Some(v as u32),
            None => None::<u32>,
        }),
{
    let s: i64 = (o as i32) as i64 + m as i64;
    if s < -0x8000_0000 || s > 0x7fff_ffff {
        return None;
    }
    if s > 6 {
        let t: u64 = o as u64 + (m as u32) as u64;
        if t > 0xffff_ffff || t < 6 {
            None
        } else {
            Some((t - 6) as u32)
        }
    } else {
        Some(0)
    }
}

} // verus!
