//! The loop that runs one map: it takes in the players that join and leave
//! and their commands, runs the map, and gives out what each connection is
//! to be told. The program that runs the server calls the steps of one
//! round in order, every 20 milliseconds, and sends the messages.

use vstd::prelude::*;
use crate::game::characters::{Controllable, Response, Token};
use crate::game::gamemap::{
    command_pushed, holder, hp_of, last_holder, player_added, portion_of, show_ok, ready_to_execute, start_of,
    teleports, ticked, token_of, GameMap, MapObject, MapScreen,
};
use crate::text::{contains, has_sub};

verus! {

/// Messages between the loop and the connections.
pub enum LoopMsg {
    /// A command from a connection.
    Command(Token, String),
    /// Text for a connection: style and text.
    TextOutput(Token, u8, String),
    /// A player's hit points.
    Hp(Token, i32),
    /// A player's view.
    Screen(Token, MapScreen),
    /// A player leaves for another map, landing where given (or at its
    /// start).
    Join(Token, String, Option<(u8, u8)>),
}

/// The loop of one map: the connections on it and what waits for the next
/// round.
pub struct GameLoop {
    pub game_map: String,
    pub connections: Vec<Token>,
    pub add_connections: Vec<(Token, String, Option<(u8, u8)>)>,
    pub remove_connections: Vec<Token>,
    pub command_queue: Vec<LoopMsg>,
}

/// The connections after the joins: each token not yet connected is added.
pub open spec fn joined(conns: Seq<Token>, adds: Seq<Token>) -> Seq<Token>
    decreases adds.len(),
{
    if adds.len() == 0 {
        conns
    } else {
        let before = joined(conns, adds.drop_last());
        if before.contains(adds.last()) {
            before
        } else {
            before.push(adds.last())
        }
    }
}

/// The map's objects after the players of `removes` leave, in order (the
/// last object of each leaving connection goes).
pub open spec fn objects_left(objs: Seq<MapObject>, removes: Seq<Token>) -> Seq<MapObject>
    decreases removes.len(),
{
    if removes.len() == 0 {
        objs
    } else {
        let before = objects_left(objs, removes.drop_last());
        match last_holder(before, removes.last()) {
            Some(i) => before.remove(i),
            None => before,
        }
    }
}

/// The connections of queued joins, in order.
pub open spec fn add_tokens(adds: Seq<(Token, String, Option<(u8, u8)>)>) -> Seq<Token> {
    adds.map_values(|a: (Token, String, Option<(u8, u8)>)| a.0)
}

/// One join on the map's objects: nothing changes when the connection is
/// already on the map, else its player is added (see `player_added`).
pub open spec fn join_step(
    before: Seq<MapObject>,
    after: Seq<MapObject>,
    map: GameMap,
    conns: Seq<Token>,
    add: (Token, String, Option<(u8, u8)>),
) -> bool {
    if conns.contains(add.0) {
        after == before
    } else {
        player_added(before, after, map.width, map.height, add.0, add.1@, start_of(add.2, map.start_x, map.start_y))
    }
}

/// One queued message on the map's objects: a command is pushed (see
/// `command_pushed`); other messages change nothing.
pub open spec fn command_step(before: Seq<MapObject>, after: Seq<MapObject>, w: u8, m: LoopMsg) -> bool {
    match m {
        LoopMsg::Command(t, c) => command_pushed(before, after, w, t, c),
        _ => after == before,
    }
}

/// The first position of `t` in `conns`, if any.
pub open spec fn first_pos(conns: Seq<Token>, t: Token) -> Option<int> {
    if conns.contains(t) {
        Some(choose|i: int| 0 <= i < conns.len() && conns[i] == t && forall|j: int| 0 <= j < i ==> conns[j] != t)
    } else {
        None
    }
}

/// The connections of the teleports, in order.
pub open spec fn teleport_tokens(tps: Seq<(Token, Seq<char>, Option<(u8, u8)>)>) -> Seq<Token> {
    tps.map_values(|e: (Token, Seq<char>, Option<(u8, u8)>)| e.0)
}

/// `conns` without the first occurrence of `t`.
pub open spec fn without_first(conns: Seq<Token>, t: Token) -> Seq<Token> {
    match first_pos(conns, t) {
        Some(i) => conns.remove(i),
        None => conns,
    }
}

/// The connections after those of `toks` leave, in order: each time the
/// first position that holds the leaving connection is dropped.
pub open spec fn without_each(conns: Seq<Token>, toks: Seq<Token>) -> Seq<Token>
    decreases toks.len(),
{
    if toks.len() == 0 {
        conns
    } else {
        without_first(without_each(conns, toks.drop_last()), toks.last())
    }
}

/// `msgs` are the text messages for `replies`, in order.
pub open spec fn texts_of(replies: Seq<Response>, msgs: Seq<LoopMsg>) -> bool {
    &&& msgs.len() == replies.len()
    &&& forall|k: int| 0 <= k < replies.len() ==> (#[trigger] msgs[k] matches LoopMsg::TextOutput(t, st, m)
        && t == replies[k].0 && st == replies[k].1 && m == replies[k].2)
}

/// `msgs` are what connection `t` is told after a tick: nothing without a
/// player; else its hit points when it has them, then its view (see
/// `portion_of`).
pub open spec fn status_of(map: GameMap, t: Token, msgs: Seq<LoopMsg>) -> bool {
    match holder(map.objects@, t) {
        None => msgs.len() == 0,
        Some(i) => {
            &&& match hp_of(map.objects@[i]) {
                Some(h) => msgs.len() == 2 && msgs[0] == LoopMsg::Hp(t, h),
                None => msgs.len() == 1,
            }
            &&& msgs.last() matches LoopMsg::Screen(t2, screen) && t2 == t && portion_of(map, t, Some(screen))
        },
    }
}

impl GameLoop {
    /// A map path may not climb out of the maps' folder.
    pub fn path_allowed(mapname: &str) -> (r: bool)
        ensures
            r == !has_sub(mapname@, ".."@),
    {
        !contains(mapname, "..")
    }

    /// A loop for the map at `mapname`, if the path is allowed and the map
    /// could be read.
    pub fn new(mapname: &str, map_read: bool) -> (r: Option<GameLoop>)
        ensures
            r is Some <==> !has_sub(mapname@, ".."@) && map_read,
            r matches Some(g) ==> g.game_map@ == mapname@ && g.connections@.len() == 0 && g.add_connections@.len() == 0
                && g.remove_connections@.len() == 0 && g.command_queue@.len() == 0,
    {
        if contains(mapname, "..") {
            None
        } else if !map_read {
            None
        } else {
            Some(GameLoop {
                game_map: mapname.to_owned(),
                connections: Vec::new(),
                add_connections: Vec::new(),
                remove_connections: Vec::new(),
                command_queue: Vec::new(),
            })
        }
    }

    /// Queues a player to join.
    pub fn join(&mut self, token: Token, name: String, index: Option<(u8, u8)>)
        ensures
            final(self).add_connections@ == old(self).add_connections@.push((token, name, index)),
            final(self).connections == old(self).connections,
            final(self).remove_connections == old(self).remove_connections,
    {
        self.add_connections.push((token, name, index));
    }

    /// Queues a player to leave.
    pub fn remove(&mut self, token: Token)
        ensures
            final(self).remove_connections@ == old(self).remove_connections@.push(token),
            final(self).connections == old(self).connections,
            final(self).add_connections == old(self).add_connections,
    {
        self.remove_connections.push(token);
    }

    /// Queues a command.
    pub fn send_command(&mut self, message: LoopMsg)
        ensures
            final(self).command_queue@ == old(self).command_queue@.push(message),
            final(self).connections == old(self).connections,
    {
        self.command_queue.push(message);
    }

    /// First step of a round: the queued players join. A player whose
    /// connection is not on the map yet is placed on it (see
    /// `GameMap::add_player`) and its connection added.
    pub fn apply_joins(&mut self, map: &mut GameMap)
        ensures
            final(self).connections@ == joined(old(self).connections@, old(self).add_connections@.map_values(
                |a: (Token, String, Option<(u8, u8)>)| a.0,
            )),
            final(self).add_connections@.len() == 0,
            final(self).remove_connections == old(self).remove_connections,
            final(self).command_queue == old(self).command_queue,
            final(map).width == old(map).width,
            final(map).height == old(map).height,
            final(map).tiles == old(map).tiles,
            final(map).teleporter == old(map).teleporter,
            final(map).objects@.len() >= old(map).objects@.len(),
            final(map).objects@.take(old(map).objects@.len() as int) == old(map).objects@,
            final(map).start_x == old(map).start_x,
            final(map).start_y == old(map).start_y,
            exists|st: Seq<Seq<MapObject>>| {
                &&& st.len() == old(self).add_connections@.len() + 1
                &&& st[0] == old(map).objects@
                &&& st.last() == final(map).objects@
                &&& forall|k: int| 0 <= k < old(self).add_connections@.len() ==> #[trigger] join_step(
                    st[k],
                    st[k + 1],
                    *old(map),
                    joined(old(self).connections@, add_tokens(old(self).add_connections@).take(k)),
                    old(self).add_connections@[k],
                )
            },
    {
        let mut adds: Vec<(Token, String, Option<(u8, u8)>)> = Vec::new();
        std::mem::swap(&mut adds, &mut self.add_connections);
        let ghost toks = adds@.map_values(|a: (Token, String, Option<(u8, u8)>)| a.0);
        let ghost c0 = self.connections@;
        let ghost o0 = map.objects@;
        let ghost m0 = *map;
        let ghost mut st: Seq<Seq<MapObject>> = seq![o0];
        let n = adds.len();
        let mut i: usize = 0;
        while i < n
            invariant
                n == adds@.len(),
                i <= n,
                toks == adds@.map_values(|a: (Token, String, Option<(u8, u8)>)| a.0),
                self.connections@ == joined(c0, toks.take(i as int)),
                self.add_connections@.len() == 0,
                self.remove_connections == old(self).remove_connections,
                self.command_queue == old(self).command_queue,
                c0 == old(self).connections@,
                o0 == old(map).objects@,
                map.width == old(map).width,
                map.height == old(map).height,
                map.tiles == old(map).tiles,
                map.teleporter == old(map).teleporter,
                map.objects@.len() >= o0.len(),
                map.objects@.take(o0.len() as int) == o0,
                map.start_x == old(map).start_x,
                map.start_y == old(map).start_y,
                m0 == *old(map),
                adds@ == old(self).add_connections@,
                st.len() == i + 1,
                st[0] == o0,
                st[i as int] == map.objects@,
                forall|k: int| 0 <= k < i ==> #[trigger] join_step(st[k], st[k + 1], m0, joined(c0, toks.take(k)), adds@[k]),
            decreases n - i,
        {
            let t = adds[i].0;
            let mut exists = false;
            let mut c: usize = 0;
            while c < self.connections.len()
                invariant
                    c <= self.connections@.len(),
                    exists == (exists|j: int| 0 <= j < c && self.connections@[j] == t),
                decreases self.connections@.len() - c,
            {
                if self.connections[c] == t {
                    exists = true;
                }
                c = c + 1;
            }
            proof {
                assert(toks.take(i + 1).drop_last() =~= toks.take(i as int));
                assert(toks.take(i + 1).last() == t);
                assert(exists == self.connections@.contains(t));
            }
            if !exists {
                let ghost before = map.objects@;
                map.add_player(t, adds[i].1.clone(), adds[i].2);
                proof {
                    assert(map.objects@.take(o0.len() as int) =~= o0) by {
                        assert forall|k: int| 0 <= k < o0.len() implies map.objects@[k] == o0[k] by {
                            if map.objects@.len() > before.len() {
                                assert(map.objects@.drop_last()[k] == before[k]);
                            }
                            assert(before.take(o0.len() as int)[k] == o0[k]);
                        }
                    }
                }
                self.connections.push(t);
            }
            proof {
                let prev = st;
                st = st.push(map.objects@);
                assert forall|k: int| 0 <= k < i + 1 implies #[trigger] join_step(st[k], st[k + 1], m0, joined(c0, toks.take(k)), adds@[k]) by {
                    if k < i {
                        assert(st[k] == prev[k]);
                        assert(st[k + 1] == prev[k + 1]);
                    }
                }
            }
            i = i + 1;
        }
        assert(toks.take(n as int) =~= toks);
        proof {
            assert(add_tokens(old(self).add_connections@) == toks);
            assert(st.last() == map.objects@);
            assert(forall|k: int| 0 <= k < old(self).add_connections@.len() ==> #[trigger] join_step(
                st[k],
                st[k + 1],
                *old(map),
                joined(old(self).connections@, add_tokens(old(self).add_connections@).take(k)),
                old(self).add_connections@[k],
            ));
        }
    }

    /// Second step of a round: the queued players leave the map (see
    /// `objects_left`), and their connections go (see `without_each`).
    pub fn apply_leaves(&mut self, map: &mut GameMap)
        ensures
            final(self).connections@ == without_each(old(self).connections@, old(self).remove_connections@),
            final(self).remove_connections@.len() == 0,
            final(self).add_connections == old(self).add_connections,
            final(self).command_queue == old(self).command_queue,
            final(map).objects@ == objects_left(old(map).objects@, old(self).remove_connections@),
            final(map).width == old(map).width,
            final(map).height == old(map).height,
            final(map).tiles == old(map).tiles,
            final(map).teleporter == old(map).teleporter,
            final(map).start_x == old(map).start_x,
            final(map).start_y == old(map).start_y,
    {
        let mut removes: Vec<Token> = Vec::new();
        std::mem::swap(&mut removes, &mut self.remove_connections);
        let ghost c0 = self.connections@;
        let ghost o0 = map.objects@;
        let n = removes.len();
        let mut i: usize = 0;
        assert(removes@.take(0) =~= Seq::<Token>::empty());
        while i < n
            invariant
                n == removes@.len(),
                i <= n,
                self.connections@ == without_each(c0, removes@.take(i as int)),
                map.objects@ == objects_left(o0, removes@.take(i as int)),
                c0 == old(self).connections@,
                o0 == old(map).objects@,
                removes@ == old(self).remove_connections@,
                self.remove_connections@.len() == 0,
                self.add_connections == old(self).add_connections,
                self.command_queue == old(self).command_queue,
                map.width == old(map).width,
                map.height == old(map).height,
                map.tiles == old(map).tiles,
                map.teleporter == old(map).teleporter,
                map.start_x == old(map).start_x,
                map.start_y == old(map).start_y,
            decreases n - i,
        {
            let t = removes[i];
            proof {
                assert(removes@.take(i + 1).drop_last() =~= removes@.take(i as int));
                assert(removes@.take(i + 1).last() == t);
            }
            map.remove_player(t);
            self.drop_connection(t);
            i = i + 1;
        }
        assert(removes@.take(n as int) =~= removes@);
    }

    /// Drops the first position that holds connection `token`, if any.
    fn drop_connection(&mut self, token: Token)
        ensures
            final(self).connections@ == without_first(old(self).connections@, token),
            final(self).add_connections == old(self).add_connections,
            final(self).remove_connections == old(self).remove_connections,
            final(self).command_queue == old(self).command_queue,
    {
        let ghost c_before = self.connections@;
        let mut pos: Option<usize> = None;
        let mut c: usize = 0;
        while c < self.connections.len()
            invariant
                c <= self.connections@.len(),
                self.connections@ == c_before,
                pos is None ==> forall|j: int| 0 <= j < c ==> self.connections@[j] != token,
                pos matches Some(p) ==> p < c && self.connections@[p as int] == token
                    && forall|j: int| 0 <= j < p ==> self.connections@[j] != token,
            decreases self.connections@.len() - c,
        {
            if pos.is_none() && self.connections[c] == token {
                pos = Some(c);
            }
            c = c + 1;
        }
        match pos {
            Some(p) => {
                proof {
                    assert(c_before.contains(token)) by {
                        assert(c_before[p as int] == token);
                    }
                    let w = choose|k: int| 0 <= k < c_before.len() && c_before[k] == token
                        && forall|j: int| 0 <= j < k ==> c_before[j] != token;
                    assert(w == p as int) by {
                        if w < p {
                            assert(c_before[w] != token);
                        }
                        if p < w {
                            assert(c_before[p as int] != token);
                        }
                    }
                }
                self.connections.remove(p);
            },
            None => {
                assert(!c_before.contains(token));
            },
        }
    }

    /// Third step of a round: the queued commands go to their players (see
    /// `GameMap::push_command`); other messages are dropped.
    pub fn apply_commands(&mut self, map: &mut GameMap)
        requires
            forall|k: int| 0 <= k < old(self).command_queue@.len() ==> match #[trigger] old(self).command_queue@[k] {
                LoopMsg::Command(t, c) => map.can_push_spec(t, c@),
                _ => true,
            },
        ensures
            final(self).command_queue@.len() == 0,
            final(self).connections == old(self).connections,
            final(map).objects@.len() == old(map).objects@.len(),
            forall|k: int| 0 <= k < old(map).objects@.len() ==> token_of(#[trigger] final(map).objects@[k]) == token_of(old(map).objects@[k])
                && final(map).objects@[k].location() == old(map).objects@[k].location(),
            final(map).width == old(map).width,
            final(map).height == old(map).height,
            final(map).tiles == old(map).tiles,
            final(map).teleporter == old(map).teleporter,
            final(map).start_x == old(map).start_x,
            final(map).start_y == old(map).start_y,
            exists|st: Seq<Seq<MapObject>>| {
                &&& st.len() == old(self).command_queue@.len() + 1
                &&& st[0] == old(map).objects@
                &&& st.last() == final(map).objects@
                &&& forall|k: int| 0 <= k < old(self).command_queue@.len() ==> #[trigger] command_step(
                    st[k],
                    st[k + 1],
                    old(map).width,
                    old(self).command_queue@[k],
                )
            },
    {
        let mut queue: Vec<LoopMsg> = Vec::new();
        std::mem::swap(&mut queue, &mut self.command_queue);
        let ghost o0 = map.objects@;
        let ghost mut st: Seq<Seq<MapObject>> = seq![o0];
        let n = queue.len();
        let mut i: usize = 0;
        while i < n
            invariant
                n == queue@.len(),
                i <= n,
                self.command_queue@.len() == 0,
                self.connections == old(self).connections,
                queue@ == old(self).command_queue@,
                o0 == old(map).objects@,
                map.objects@.len() == o0.len(),
                forall|k: int| 0 <= k < o0.len() ==> token_of(#[trigger] map.objects@[k]) == token_of(o0[k])
                    && map.objects@[k].location() == o0[k].location(),
                map.width == old(map).width,
                map.height == old(map).height,
                map.tiles == old(map).tiles,
                map.teleporter == old(map).teleporter,
                forall|k: int| 0 <= k < queue@.len() ==> match #[trigger] queue@[k] {
                    LoopMsg::Command(t, c) => old(map).can_push_spec(t, c@),
                    _ => true,
                },
                map.start_x == old(map).start_x,
                map.start_y == old(map).start_y,
                st.len() == i + 1,
                st[0] == o0,
                st[i as int] == map.objects@,
                forall|k: int| 0 <= k < i ==> #[trigger] command_step(st[k], st[k + 1], old(map).width, queue@[k]),
            decreases n - i,
        {
            let ghost pre = map.objects@;
            match &queue[i] {
                LoopMsg::Command(token, command) => {
                    proof {
                        lemma_holder_same(old(map).objects@, map.objects@, *token);
                    }
                    let ghost before = map.objects@;
                    map.push_command(*token, command.clone());
                    proof {
                        assert forall|k: int| 0 <= k < o0.len() implies token_of(#[trigger] map.objects@[k]) == token_of(o0[k])
                            && map.objects@[k].location() == o0[k].location() by {
                            assert(token_of(before[k]) == token_of(o0[k]));
                        }
                    }
                },
                _ => {},
            }
            proof {
                let prev = st;
                st = st.push(map.objects@);
                assert(command_step(pre, map.objects@, old(map).width, queue@[i as int]));
                assert forall|k: int| 0 <= k < i + 1 implies #[trigger] command_step(st[k], st[k + 1], old(map).width, queue@[k]) by {
                    if k < i {
                        assert(st[k] == prev[k]);
                        assert(st[k + 1] == prev[k + 1]);
                    }
                }
            }
            i = i + 1;
        }
        proof {
            assert(st.last() == map.objects@);
            assert(forall|k: int| 0 <= k < old(self).command_queue@.len() ==> #[trigger] command_step(
                st[k],
                st[k + 1],
                old(map).width,
                old(self).command_queue@[k],
            ));
        }
    }

    /// Fourth step of a round: the map runs a tick (see `GameMap::execute`);
    /// its messages go out as text.
    pub fn run_map(&self, map: &mut GameMap) -> (r: Vec<LoopMsg>)
        requires
            ready_to_execute(*old(map)),
        ensures
            final(map).width == old(map).width,
            final(map).height == old(map).height,
            final(map).tiles == old(map).tiles,
            final(map).teleporter == old(map).teleporter,
            final(map).start_x == old(map).start_x,
            final(map).start_y == old(map).start_y,
            final(map).objects@.len() == old(map).objects@.len(),
            exists|replies: Seq<Response>| ticked(*old(map), final(map).objects@, replies) && texts_of(replies, r@),
    {
        let responses = map.execute();
        let mut out: Vec<LoopMsg> = Vec::new();
        let mut i: usize = 0;
        while i < responses.len()
            invariant
                i <= responses@.len(),
                texts_of(responses@.take(i as int), out@),
            decreases responses@.len() - i,
        {
            let (token, style, response) = (responses[i].0, responses[i].1, responses[i].2.clone());
            out.push(LoopMsg::TextOutput(token, style, response));
            i = i + 1;
            assert(responses@.take(i as int).drop_last() =~= responses@.take(i - 1));
        }
        assert(responses@.take(responses@.len() as int) =~= responses@);
        out
    }

    /// Fifth step of a round: each connection gets its player's hit points
    /// and view.
    pub fn send_status(&self, map: &GameMap) -> (r: Vec<LoopMsg>)
        requires
            forall|k: int| 0 <= k < self.connections@.len() ==> show_ok(*map, #[trigger] self.connections@[k]),
        ensures
            exists|parts: Seq<Seq<LoopMsg>>| {
                &&& parts.len() == self.connections@.len()
                &&& r@ == parts.flatten()
                &&& forall|c: int| 0 <= c < parts.len() ==> #[trigger] status_of(*map, self.connections@[c], parts[c])
            },
    {
        let mut out: Vec<LoopMsg> = Vec::new();
        let ghost mut parts: Seq<Seq<LoopMsg>> = Seq::empty();
        let mut c: usize = 0;
        while c < self.connections.len()
            invariant
                c <= self.connections@.len(),
                forall|k: int| 0 <= k < self.connections@.len() ==> show_ok(*map, #[trigger] self.connections@[k]),
                parts.len() == c,
                out@ == parts.flatten(),
                forall|k: int| 0 <= k < c ==> #[trigger] status_of(*map, self.connections@[k], parts[k]),
            decreases self.connections@.len() - c,
        {
            let conn = self.connections[c];
            let ghost before = out@;
            let hp = map.get_hp(conn);
            if hp.is_some() {
                out.push(LoopMsg::Hp(conn, hp.unwrap()));
            }
            let screen = map.send_portion(conn);
            match screen {
                Some(s) => {
                    out.push(LoopMsg::Screen(conn, s));
                },
                None => {},
            }
            proof {
                let part = out@.skip(before.len() as int);
                assert(out@ =~= before + part);
                let prev = parts;
                parts = parts.push(part);
                prev.lemma_flatten_push(part);
                assert(status_of(*map, conn, part));
                assert forall|k: int| 0 <= k < c + 1 implies #[trigger] status_of(*map, self.connections@[k], parts[k]) by {
                    if k < c {
                        assert(parts[k] == prev[k]);
                    }
                }
            }
            c = c + 1;
        }
        out
    }

    /// Last step of a round: each player on a teleporter leaves the map and
    /// its connection goes, with a message to join the teleporter's map.
    pub fn apply_teleports(&mut self, map: &mut GameMap) -> (r: Vec<LoopMsg>)
        ensures
            final(map).width == old(map).width,
            final(map).height == old(map).height,
            final(map).tiles == old(map).tiles,
            final(map).teleporter == old(map).teleporter,
            final(map).start_x == old(map).start_x,
            final(map).start_y == old(map).start_y,
            final(map).objects@ == objects_left(
                old(map).objects@,
                teleport_tokens(teleports(old(map).objects@, old(map).teleporter@)),
            ),
            final(self).connections@ == without_each(
                old(self).connections@,
                teleport_tokens(teleports(old(map).objects@, old(map).teleporter@)),
            ),
            final(self).add_connections == old(self).add_connections,
            final(self).remove_connections == old(self).remove_connections,
            final(self).command_queue == old(self).command_queue,
            r@.len() == teleports(old(map).objects@, old(map).teleporter@).len(),
            forall|k: int| #![trigger r@[k]] 0 <= k < r@.len() ==> (r@[k] matches LoopMsg::Join(t, m, at)
                && t == teleports(old(map).objects@, old(map).teleporter@)[k].0
                && m@ == teleports(old(map).objects@, old(map).teleporter@)[k].1
                && at == teleports(old(map).objects@, old(map).teleporter@)[k].2),
    {
        let due = map.do_teleports();
        let ghost tps = teleports(old(map).objects@, old(map).teleporter@);
        let ghost toks = teleport_tokens(tps);
        let mut out: Vec<LoopMsg> = Vec::new();
        let n = due.len();
        let mut i: usize = 0;
        assert(toks.take(0) =~= Seq::<Token>::empty());
        while i < n
            invariant
                n == due@.len(),
                i <= n,
                due@.map_values(|e: (Token, String, Option<(u8, u8)>)| (e.0, e.1@, e.2)) == tps,
                toks == teleport_tokens(tps),
                out@.len() == i,
                forall|k: int| 0 <= k < i ==> (#[trigger] out@[k] matches LoopMsg::Join(t, m, at) && t == tps[k].0 && m@ == tps[k].1 && at == tps[k].2),
                map.width == old(map).width,
                map.height == old(map).height,
                map.tiles == old(map).tiles,
                map.teleporter == old(map).teleporter,
                map.start_x == old(map).start_x,
                map.start_y == old(map).start_y,
                map.objects@ == objects_left(old(map).objects@, toks.take(i as int)),
                self.connections@ == without_each(old(self).connections@, toks.take(i as int)),
                self.add_connections == old(self).add_connections,
                self.remove_connections == old(self).remove_connections,
                self.command_queue == old(self).command_queue,
            decreases n - i,
        {
            let token = due[i].0;
            let join = due[i].1.clone();
            let index = due[i].2;
            assert(tps[i as int] == (token, join@, index));
            proof {
                assert(toks.take(i + 1).drop_last() =~= toks.take(i as int));
                assert(toks.take(i + 1).last() == token);
            }
            map.remove_player(token);
            self.drop_connection(token);
            out.push(LoopMsg::Join(token, join, index));
            i = i + 1;
        }
        assert(toks.take(n as int) =~= toks);
        out
    }
}

/// Objects with the same connections in the same places have the same
/// first holder of each connection.
proof fn lemma_holder_same(a: Seq<MapObject>, b: Seq<MapObject>, t: Token)
    requires
        a.len() == b.len(),
        forall|k: int| 0 <= k < a.len() ==> token_of(#[trigger] b[k]) == token_of(a[k]),
    ensures
        forall|t2: Token| #[trigger] holder(b, t2) == holder(a, t2),
{
    assert forall|t2: Token| #[trigger] holder(b, t2) == holder(a, t2) by {
        assert forall|i: int| #[trigger] crate::game::gamemap::is_first_holder(a, t2, i) ==> crate::game::gamemap::is_first_holder(b, t2, i) by {
            if crate::game::gamemap::is_first_holder(a, t2, i) {
                assert forall|j: int| 0 <= j < i implies token_of(#[trigger] b[j]) != Some(t2) by {
                    assert(token_of(a[j]) != Some(t2));
                }
            }
        }
        assert forall|i: int| #[trigger] crate::game::gamemap::is_first_holder(b, t2, i) ==> crate::game::gamemap::is_first_holder(a, t2, i) by {
            if crate::game::gamemap::is_first_holder(b, t2, i) {
                assert forall|j: int| 0 <= j < i implies token_of(#[trigger] a[j]) != Some(t2) by {
                    assert(token_of(b[j]) != Some(t2));
                }
            }
        }
        if exists|i: int| crate::game::gamemap::is_first_holder(a, t2, i) {
            let ia = choose|i: int| crate::game::gamemap::is_first_holder(a, t2, i);
            assert(crate::game::gamemap::is_first_holder(b, t2, ia));
            let ib = choose|i: int| crate::game::gamemap::is_first_holder(b, t2, i);
            assert(crate::game::gamemap::is_first_holder(a, t2, ib));
            assert(ia == ib) by {
                if ia < ib {
                    assert(token_of(a[ia]) != Some(t2));
                }
                if ib < ia {
                    assert(token_of(a[ib]) != Some(t2));
                }
            }
        } else {
            if exists|i: int| crate::game::gamemap::is_first_holder(b, t2, i) {
                let ib = choose|i: int| crate::game::gamemap::is_first_holder(b, t2, i);
                assert(crate::game::gamemap::is_first_holder(a, t2, ib));
            }
        }
    }
}

} // verus!
