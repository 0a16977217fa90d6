//! The maps of the game: terrain, the players on them by cell, the
//! characters the map controls and the commands queued for it.

use vstd::prelude::*;
use std::collections::HashMap;
use crate::game::characters::Npc;
use crate::game::command::Command;
use crate::game::Point;
use crate::strmap::StrMap;
use crate::text::{chars_of, parse_u32, parse_unsigned_spec};

verus! {

broadcast use vstd::std_specs::hash::group_hash_axioms;

/// A map of the game (named `WorldMap`, since `Map` names the
/// mathematical maps of the specifications).
pub struct WorldMap {
    pub width: u32,
    pub height: u32,
    /// Settings such as lighting, player killing and the start cell.
    pub modifiers: StrMap<String>,
    pub tiles: Vec<MapTile>,
    pub players: HashMap<u128, Point>,
    pub objects: Vec<Npc>,
    /// Commands to run.
    pub queue: Vec<Command>,
}

/// One cell of terrain: its art and whether it is blocked.
pub struct MapTile {
    pub tile: String,
    pub blocked: bool,
}

impl MapTile {
    pub fn new(tile: String) -> (r: MapTile)
        ensures
            r.tile@ == tile@,
            !r.blocked,
    {
        MapTile { tile: tile, blocked: false }
    }
}

/// The players' cells after the queued steps: each step puts its character
/// on its cell.
pub open spec fn after_steps(players: Map<u128, Point>, queue: Seq<Command>) -> Map<u128, Point>
    decreases queue.len(),
{
    if queue.len() == 0 {
        players
    } else {
        let before = after_steps(players, queue.drop_last());
        match queue.last() {
            Command::MoveStep(id, p, _) => before.insert(id, p),
            _ => before,
        }
    }
}

/// The start cell's coordinate named `key` in the map's settings.
pub open spec fn start_value(m: StrMap<String>, key: Seq<char>) -> Option<nat> {
    match m.lookup(key) {
        Some(v) => parse_unsigned_spec(v@, 10, 0xffff_ffff),
        None => None,
    }
}

/// Finding a character right after adding it gives the cell it was added
/// on; finding it right after removing it gives nothing; the other
/// characters keep their cells through both.
pub proof fn lemma_world_find_after_write(players: Map<u128, Point>, id: u128, start: Point, other: u128)
    requires
        other != id,
    ensures
        players.insert(id, start).contains_key(id),
        players.insert(id, start)[id] == start,
        !players.remove(id).contains_key(id),
        players.insert(id, start).contains_key(other) == players.contains_key(other),
        players.remove(id).contains_key(other) == players.contains_key(other),
        players.contains_key(other) ==> players.insert(id, start)[other] == players[other]
            && players.remove(id)[other] == players[other],
{
}

/// `acts` lists the characters the map controls (by position) that a
/// player (by id) activates: each pair is a reacting character and a player
/// on its cell, and every such pair is listed.
pub open spec fn activated(m: WorldMap, acts: Seq<(usize, u128)>) -> bool {
    &&& forall|k: int| 0 <= k < acts.len() ==> {
        let (i, id) = #[trigger] acts[k];
        &&& (i as int) < m.objects@.len()
        &&& m.players@.contains_key(id)
        &&& m.players@[id] == m.objects@[i as int].location
        &&& m.objects@[i as int].delegate matches Some(d) && d.when_activated is Some
    }
    &&& forall|i: int, id: u128| 0 <= i < m.objects@.len() && m.players@.contains_key(id)
        && m.players@[id] == m.objects@[i].location
        && (m.objects@[i].delegate matches Some(d) && d.when_activated is Some)
        ==> acts.contains((i as usize, id))
}

/// The command that activating the character `npc` gives.
pub open spec fn reaction(npc: Npc) -> Command {
    npc.delegate.unwrap().when_activated.unwrap()
}

impl WorldMap {
    /// An empty map.
    pub fn new(mapname: &str) -> (r: WorldMap)
        ensures
            r.width == 0,
            r.height == 0,
            r.modifiers.wf(),
            r.modifiers.entries().len() == 0,
            r.tiles@.len() == 0,
            r.players@ == Map::<u128, Point>::empty(),
            r.objects@.len() == 0,
            r.queue@.len() == 0,
    {
        WorldMap {
            width: 0,
            height: 0,
            modifiers: StrMap::new(),
            tiles: Vec::new(),
            players: HashMap::new(),
            objects: Vec::new(),
            queue: Vec::new(),
        }
    }

    /// Puts the character `uuid` on the start cell (the settings `start_x`
    /// and `start_y`).
    pub fn add_player(&mut self, uuid: &u128)
        requires
            old(self).modifiers.wf(),
            start_value(old(self).modifiers, "start_x"@) is Some,
            start_value(old(self).modifiers, "start_y"@) is Some,
        ensures
            final(self).players@ == old(self).players@.insert(
                *uuid,
                Point {
                    x: start_value(old(self).modifiers, "start_x"@).unwrap() as u32,
                    y: start_value(old(self).modifiers, "start_y"@).unwrap() as u32,
                },
            ),
            final(self).objects == old(self).objects,
            final(self).queue == old(self).queue,
    {
        let sx = self.modifiers.get("start_x").unwrap();
        let x = parse_u32(&chars_of(sx.as_str())).unwrap();
        let sy = self.modifiers.get("start_y").unwrap();
        let y = parse_u32(&chars_of(sy.as_str())).unwrap();
        self.players.insert(*uuid, Point::new(&x, &y));
    }

    /// The cell of the character `uuid`, if it is on the map.
    pub fn find_player(&mut self, uuid: &u128) -> (r: Option<Point>)
        ensures
            r == (if old(self).players@.contains_key(*uuid) {
                Some(old(self).players@[*uuid])
            } else {
                None
            }),
            *final(self) == *old(self),
    {
        match self.players.get(uuid) {
            Some(location) => Some(*location),
            None => None,
        }
    }

    /// Takes the character `uuid` off the map.
    pub fn remove_player(&mut self, uuid: &u128)
        ensures
            final(self).players@ == old(self).players@.remove(*uuid),
            final(self).objects == old(self).objects,
            final(self).queue == old(self).queue,
    {
        self.players.remove(uuid);
    }

    /// Queues a command.
    pub fn queue(&mut self, command: Command)
        ensures
            final(self).queue@ == old(self).queue@.push(command),
            final(self).players == old(self).players,
            final(self).objects == old(self).objects,
    {
        self.queue.push(command);
    }

    /// The characters the map controls (by position) that a player (by id)
    /// activates by standing on their cell, where they react.
    pub fn activations(&self) -> (r: Vec<(usize, u128)>)
        ensures
            activated(*self, r@),
    {
        let mut out: Vec<(usize, u128)> = Vec::new();
        let n = self.objects.len();
        let mut i: usize = 0;
        while i < n
            invariant
                n == self.objects@.len(),
                i <= n,
                forall|k: int| 0 <= k < out@.len() ==> {
                    let (a, id) = #[trigger] out@[k];
                    &&& (a as int) < i
                    &&& self.players@.contains_key(id)
                    &&& self.players@[id] == self.objects@[a as int].location
                    &&& self.objects@[a as int].delegate matches Some(d) && d.when_activated is Some
                },
                forall|a: int, id: u128| 0 <= a < i && self.players@.contains_key(id)
                    && self.players@[id] == self.objects@[a].location
                    && (self.objects@[a].delegate matches Some(d) && d.when_activated is Some)
                    ==> out@.contains((a as usize, id)),
            decreases n - i,
        {
            let reacts = match &self.objects[i].delegate {
                Some(d) => d.when_activated.is_some(),
                None => false,
            };
            if reacts {
                let loc = self.objects[i].location;
                let ghost before = out@;
                for p in it: self.players.iter()
                    invariant
                        i < n,
                        n == self.objects@.len(),
                        reacts,
                        loc == self.objects@[i as int].location,
                        self.objects@[i as int].delegate matches Some(d) && d.when_activated is Some,
                        out@.len() >= before.len(),
                        forall|k: int| 0 <= k < before.len() ==> out@[k] == before[k],
                        forall|k: int| 0 <= k < out@.len() ==> {
                            let (a, id) = #[trigger] out@[k];
                            &&& (a as int) <= i
                            &&& self.players@.contains_key(id)
                            &&& self.players@[id] == self.objects@[a as int].location
                            &&& self.objects@[a as int].delegate matches Some(d) && d.when_activated is Some
                        },
                        forall|j: int| 0 <= j < it.index() && *(#[trigger] it.seq()[j]).1 == loc
                            ==> out@.contains((i, *it.seq()[j].0)),
                        forall|j: int| 0 <= j < it.seq().len() ==> self.players@.contains_key(*(#[trigger] it.seq()[j]).0)
                            && self.players@[*it.seq()[j].0] == *it.seq()[j].1,
                        forall|id: u128| #[trigger] self.players@.contains_key(id) ==> exists|j: int| 0 <= j < it.seq().len() && *(#[trigger] it.seq()[j]).0 == id,
                {
                    let (id, point) = p;
                    if *point == loc {
                        let ghost o = out@;
                        out.push((i, *id));
                        assert(out@[o.len() as int] == (i, *id));
                        assert forall|j: int| 0 <= j < it.index() + 1 && *(#[trigger] it.seq()[j]).1 == loc
                            implies out@.contains((i, *it.seq()[j].0)) by {
                            if j < it.index() {
                                let w = choose|w: int| 0 <= w < o.len() && o[w] == (i, *it.seq()[j].0);
                                assert(out@[w] == o[w]);
                            }
                        }
                    }
                }
                proof {
                    assert forall|a: int, id: u128| 0 <= a < i + 1 && self.players@.contains_key(id)
                        && self.players@[id] == self.objects@[a].location
                        && (self.objects@[a].delegate matches Some(d) && d.when_activated is Some)
                        implies out@.contains((a as usize, id)) by {
                        if a < i {
                            let w = choose|w: int| 0 <= w < before.len() && before[w] == (a as usize, id);
                            assert(out@[w] == before[w]);
                        }
                    }
                }
            }
            i = i + 1;
        }
        out
    }

    /// Runs the queued commands: each step puts its character on its cell.
    /// The characters the map controls are then activated by the players
    /// standing on them: gives the command each activation calls for (see
    /// `activated` and `reaction`), for the game to act on.
    pub fn execute(&mut self) -> (r: Vec<Command>)
        ensures
            exists|acts: Seq<(usize, u128)>| {
                &&& activated(*final(self), acts)
                &&& r@.len() == acts.len()
                &&& forall|k: int| 0 <= k < acts.len() ==> #[trigger] r@[k] == reaction(final(self).objects@[acts[k].0 as int])
            },
            final(self).players@ == after_steps(old(self).players@, old(self).queue@),
            final(self).queue == old(self).queue,
            final(self).objects == old(self).objects,
            final(self).tiles == old(self).tiles,
            final(self).width == old(self).width,
            final(self).height == old(self).height,
            final(self).modifiers == old(self).modifiers,
    {
        let n = self.queue.len();
        let mut i: usize = 0;
        let ghost p0 = self.players@;
        while i < n
            invariant
                n == self.queue@.len(),
                i <= n,
                self.players@ == after_steps(p0, self.queue@.take(i as int)),
                self.queue == old(self).queue,
                self.objects == old(self).objects,
                self.tiles == old(self).tiles,
                self.width == old(self).width,
                self.height == old(self).height,
                self.modifiers == old(self).modifiers,
                p0 == old(self).players@,
            decreases n - i,
        {
            proof {
                assert(self.queue@.take(i + 1).drop_last() =~= self.queue@.take(i as int));
            }
            match &self.queue[i] {
                Command::MoveStep(uuid, point, direction) => {
                    self.players.insert(*uuid, *point);
                },
                _ => {},
            }
            i = i + 1;
        }
        assert(self.queue@.take(n as int) =~= self.queue@);
        let acts = self.activations();
        let mut results: Vec<Command> = Vec::new();
        let mut k: usize = 0;
        while k < acts.len()
            invariant
                k <= acts@.len(),
                activated(*self, acts@),
                results@.len() == k,
                forall|j: int| 0 <= j < k ==> #[trigger] results@[j] == reaction(self.objects@[acts@[j].0 as int]),
            decreases acts@.len() - k,
        {
            let i = acts[k].0;
            assert(acts@[k as int].0 == i);
            match &self.objects[i].delegate {
                Some(d) => match &d.when_activated {
                    Some(c) => {
                        results.push(c.duplicate());
                    },
                    None => {},
                },
                None => {},
            }
            k = k + 1;
        }
        results
    }
}

} // verus!
