//! The game: maps, the things on them and the rules that move them.

pub mod camera;
pub mod characters;
pub mod command;
pub mod gameloop;
pub mod gamemap;
pub mod map;
pub mod mapfile;
pub mod pathing;

use vstd::prelude::*;
use crate::strmap::StrMap;
use crate::conn::{ConnAddr, Login, Msg};
use crate::game::camera::Camera;
use crate::game::characters::Pc;
use crate::game::command::command_readable;
use crate::game::map::{after_steps, WorldMap};
use crate::text::str_eq;
use std::collections::HashMap;
use crate::text::{chars_of, string_of, trim_chars, trimmed};

verus! {

/// A cell by its column and row.
#[derive(Clone, Copy, PartialEq, Eq, Structural, Debug)]
pub struct Point {
    pub x: u32,
    pub y: u32,
}

impl Point {
    pub fn new(x: &u32, y: &u32) -> (r: Point)
        ensures
            r.x == *x,
            r.y == *y,
    {
        Point { x: *x, y: *y }
    }

    /// The column and row of cell `index` on a map `width` wide.
    pub fn from_index(index: &u32, width: &u32) -> (r: Point)
        requires
            *width > 0,
        ensures
            r.x == *index % *width,
            r.y == *index / *width,
    {
        let x = index % width;
        let y = index / width;
        Point { x: x, y: y }
    }

    /// The index of the cell in the cells of a map `width` wide, row by row:
    /// `y * width + x`.
    pub fn to_index(self, width: &u32) -> (r: u32)
        requires
            self.y * *width + self.x <= u32::MAX,
        ensures
            r == self.y * *width + self.x,
    {
        self.y * width + self.x
    }
}

/// `to_index` gives back the cell that `from_index` was given.
pub proof fn lemma_index_roundtrip(index: u32, width: u32)
    requires
        width > 0,
    ensures
        (index / width) * width + index % width == index,
{
    assert((index / width) * width + index % width == index) by (nonlinear_arith)
        requires
            width > 0,
    ;
}

/// A client connection known to the game: the id of its character.
pub struct Connection {
    pub id: u128,
}

impl Connection {
    pub fn new(id: u128) -> (r: Connection)
        ensures
            r.id == id,
    {
        Connection { id: id }
    }
}


/// The number of art name `k`: the position of its last occurrence in `keys`.
pub open spec fn numbered(keys: Seq<Seq<char>>, k: Seq<char>) -> Option<i16>
    decreases keys.len(),
{
    if keys.len() == 0 {
        None
    } else if keys.last() == k {
        Some((keys.len() - 1) as i16)
    } else {
        numbered(keys.drop_last(), k)
    }
}

/// The numbers of the art: the lines of the tile list, trimmed, numbered
/// from 0 in order, then the file names of the images; a name listed twice
/// keeps its last number.
pub fn build_mappings(lines: &Vec<String>, stems: &Vec<String>) -> (r: StrMap<i16>)
    requires
        lines@.len() + stems@.len() <= 32767,
    ensures
        r.wf(),
        forall|k: Seq<char>| #[trigger] r.lookup(k) == numbered(
            lines@.map_values(|l: String| trimmed(l@)) + stems@.map_values(|s: String| s@),
            k,
        ),
{
    let ghost keys = lines@.map_values(|l: String| trimmed(l@)) + stems@.map_values(|s: String| s@);
    let mut m: StrMap<i16> = StrMap::new();
    let mut count: i16 = 0;
    let n = lines.len();
    let total = lines.len() + stems.len();
    let mut i: usize = 0;
    while i < total
        invariant
            n == lines@.len(),
            total == lines@.len() + stems@.len(),
            total <= 32767,
            i <= total,
            count == i,
            m.wf(),
            keys == lines@.map_values(|l: String| trimmed(l@)) + stems@.map_values(|s: String| s@),
            forall|k: Seq<char>| #[trigger] m.lookup(k) == numbered(keys.take(i as int), k),
        decreases total - i,
    {
        let key = if i < n {
            string_of(&trim_chars(&chars_of(lines[i].as_str())))
        } else {
            stems[i - n].clone()
        };
        assert(key@ == keys[i as int]);
        let ghost before = m;
        m.insert(key, count);
        proof {
            assert(keys.take(i + 1).drop_last() =~= keys.take(i as int));
            assert forall|k: Seq<char>| #[trigger] m.lookup(k) == numbered(keys.take(i + 1), k) by {
                if k != key@ {
                    assert(m.lookup(k) == before.lookup(k));
                }
            }
        }
        count = count + 1;
        i = i + 1;
    }
    assert(keys.take(total as int) =~= keys);
    m
}

broadcast use vstd::std_specs::hash::group_hash_axioms;

/// A new character id: a random (version 4) UUID as a number.
/// Calls `uuid::Uuid::new_v4` and `Uuid::as_u128`; the contract states the
/// version and variant bits that `new_v4` sets. The other bits come from the
/// system's random source (the call panics if there is none) and are not
/// stated.
#[verifier::external_body]
pub(crate) fn new_id() -> (r: u128)
    ensures
        (r >> 76u128) & 0xfu128 == 4,
        (r >> 62u128) & 0x3u128 == 2,
{
    uuid::Uuid::new_v4().as_u128()
}

/// What the game sends a connection, as far as the login rules go.
pub enum Sent {
    Result(u8, Seq<char>),
    Mappings,
    Other,
}

pub open spec fn sent_of(m: Msg) -> Sent {
    match m {
        Msg::LoginResult(c, s) => Sent::Result(c, s@),
        Msg::TileMapping(_) => Sent::Mappings,
        _ => Sent::Other,
    }
}

/// The game's connections (address to character id), its characters (key
/// to id, name and camera), what it has sent, and how many new ids it has
/// taken.
pub struct World {
    pub conns: Map<ConnAddr, u128>,
    pub pcs: Map<u128, (u128, Seq<char>, Camera)>,
    pub out: Seq<(ConnAddr, Sent)>,
    pub fresh: nat,
}

pub open spec fn conns_view(m: Map<ConnAddr, Connection>) -> Map<ConnAddr, u128> {
    m.map_values(|c: Connection| c.id)
}

pub open spec fn pcs_view(m: Map<u128, Pc>) -> Map<u128, (u128, Seq<char>, Camera)> {
    m.map_values(|p: Pc| (p.id, p.name@, p.camera))
}

/// The connections whose character is called `name`.
pub open spec fn logged_in_as(w: World, name: Seq<char>) -> Set<ConnAddr> {
    w.conns.dom().filter(|a: ConnAddr| w.pcs.contains_key(w.conns[a]) && w.pcs[w.conns[a]].1 == name)
}

/// The characters called `name`.
pub open spec fn named(w: World, name: Seq<char>) -> Set<u128> {
    w.pcs.dom().filter(|k: u128| w.pcs[k].1 == name)
}

/// `n` copies of a message.
pub open spec fn copies(n: nat, x: (ConnAddr, Sent)) -> Seq<(ConnAddr, Sent)> {
    Seq::new(n, |i: int| x)
}

/// The game after one queued message. A login on a known connection is
/// refused (result 3, once per connection already logged in under that
/// name); else the characters with that name are taken over by the
/// connection's id (result 4 each), or a new character is made for it, and
/// the art numbers are sent. A connection gets the next new id; a timeout
/// drops the connection.
pub open spec fn on_message(w: World, m: Msg, ids: Seq<u128>) -> World {
    match m {
        Msg::Login(addr, login) => if !w.conns.contains_key(addr) {
            w
        } else {
            let name = login.name@;
            let taken = logged_in_as(w, name);
            if taken.len() > 0 {
                World { out: w.out + copies(taken.len(), (addr, Sent::Result(3, "User already logged in"@))), ..w }
            } else {
                let id = w.conns[addr];
                let own = named(w, name);
                if own.len() > 0 {
                    World {
                        pcs: Map::new(
                            |k: u128| w.pcs.contains_key(k),
                            |k: u128| if own.contains(k) { (id, w.pcs[k].1, w.pcs[k].2) } else { w.pcs[k] },
                        ),
                        out: w.out + copies(own.len(), (addr, Sent::Result(4, Seq::empty()))) + seq![(addr, Sent::Mappings)],
                        ..w
                    }
                } else {
                    World {
                        pcs: w.pcs.insert(id, (id, name, Camera { width: login.width as u32, height: login.height as u32 })),
                        out: w.out.push((addr, Sent::Mappings)),
                        ..w
                    }
                }
            }
        },
        Msg::Timeout(addr) => World { conns: w.conns.remove(addr), ..w },
        Msg::Connect(addr) => World { conns: w.conns.insert(addr, ids[w.fresh as int]), fresh: w.fresh + 1, ..w },
        _ => w,
    }
}

/// Once a connection has logged in under a new name, a login under the same
/// name from any connection is refused with result 3 while the first stays
/// connected, and changes no character.
pub proof fn lemma_second_login_refused(
    w: World,
    a: ConnAddr,
    b: ConnAddr,
    first: Login,
    second: Login,
    ids: Seq<u128>,
)
    requires
        w.conns.dom().finite(),
        w.conns.contains_key(a),
        w.conns.contains_key(b),
        first.name@ == second.name@,
        named(w, first.name@) == Set::<u128>::empty(),
    ensures
        ({
            let w1 = on_message(w, Msg::Login(a, first), ids);
            let w2 = on_message(w1, Msg::Login(b, second), ids);
            &&& w1.out == w.out.push((a, Sent::Mappings))
            &&& w2.out.len() > w1.out.len()
            &&& w2.out.last() == (b, Sent::Result(3, "User already logged in"@))
            &&& w2.pcs == w1.pcs
            &&& w2.conns == w1.conns
        }),
{
    let name = first.name@;
    assert(logged_in_as(w, name) =~= Set::<ConnAddr>::empty()) by {
        assert forall|x: ConnAddr| !#[trigger] logged_in_as(w, name).contains(x) by {
            if logged_in_as(w, name).contains(x) {
                assert(named(w, name).contains(w.conns[x]));
            }
        }
    }
    let w1 = on_message(w, Msg::Login(a, first), ids);
    assert(w1.out == w.out.push((a, Sent::Mappings)));
    assert(w1.conns == w.conns);
    let taken = logged_in_as(w1, name);
    assert(taken.contains(a));
    w1.conns.dom().lemma_len_filter(
        |x: ConnAddr| w1.pcs.contains_key(w1.conns[x]) && w1.pcs[w1.conns[x]].1 == name,
    );
    vstd::set_lib::lemma_set_empty_equivalency_len(taken);
    let n = taken.len();
    assert(n > 0) by {
        if n == 0 {
            assert(!Set::<ConnAddr>::empty().contains(a));
        }
    }
    let w2 = on_message(w1, Msg::Login(b, second), ids);
    let x = (b, Sent::Result(3, "User already logged in"@));
    assert(w2.out == w1.out + copies(n, x));
    assert((w1.out + copies(n, x)).last() == copies(n, x)[n - 1]);
}

/// The game after the queued messages, in order.
pub open spec fn run_messages(w: World, q: Seq<Msg>, ids: Seq<u128>) -> World
    decreases q.len(),
{
    if q.len() == 0 {
        w
    } else {
        on_message(run_messages(w, q.drop_last(), ids), q.last(), ids)
    }
}

/// The number of connections in the queue.
pub open spec fn connects(q: Seq<Msg>) -> nat
    decreases q.len(),
{
    if q.len() == 0 {
        0
    } else {
        connects(q.drop_last()) + if q.last() is Connect { 1nat } else { 0nat }
    }
}

/// Every command in the queue can be read.
pub open spec fn commands_readable(q: Seq<Msg>) -> bool {
    forall|k: int| 0 <= k < q.len() ==> (#[trigger] q[k] matches Msg::Command(_, c) ==> command_readable(c@))
}

/// The game: its connections and characters, its maps, the art numbers,
/// and the messages it has taken in.
pub struct Game {
    pub connections: HashMap<ConnAddr, Connection>,
    pub pcs: HashMap<u128, Pc>,
    pub maps: StrMap<WorldMap>,
    pub mappings: StrMap<i16>,
    pub queue: Vec<Msg>,
}

impl Game {
    /// A game with the art numbers `mappings` and nothing else.
    pub fn new(mappings: StrMap<i16>) -> (r: Game)
        ensures
            r.connections@ == Map::<ConnAddr, Connection>::empty(),
            r.pcs@ == Map::<u128, Pc>::empty(),
            r.maps.wf(),
            r.maps.entries().len() == 0,
            r.mappings == mappings,
            r.queue@.len() == 0,
    {
        Game {
            connections: HashMap::new(),
            pcs: HashMap::new(),
            maps: StrMap::new(),
            mappings: mappings,
            queue: Vec::new(),
        }
    }
}


/// What was sent, as far as the login rules go.
pub open spec fn out_view(o: Seq<(ConnAddr, Msg)>) -> Seq<(ConnAddr, Sent)> {
    o.map_values(|p: (ConnAddr, Msg)| (p.0, sent_of(p.1)))
}

/// Every art-number message sent holds the game's numbers.
pub open spec fn mappings_sent(o: Seq<(ConnAddr, Msg)>, mappings: StrMap<i16>) -> bool {
    forall|k: int| 0 <= k < o.len() ==> ((#[trigger] o[k]).1 matches Msg::TileMapping(m) ==> (m.wf()
        && forall|key: Seq<char>| #[trigger] m.lookup(key) == mappings.lookup(key)))
}

impl Game {
    /// A login from connection `addr` (see `on_message`).
    fn handle_login(&mut self, addr: ConnAddr, login: &Login, out: &mut Vec<(ConnAddr, Msg)>, Ghost(ids): Ghost<Seq<u128>>, Ghost(fresh): Ghost<nat>)
        requires
            old(self).mappings.wf(),
            mappings_sent(old(out)@, old(self).mappings),
        ensures
            ({
                let w0 = World { conns: conns_view(old(self).connections@), pcs: pcs_view(old(self).pcs@), out: out_view(old(out)@), fresh: fresh };
                let w1 = on_message(w0, Msg::Login(addr, *login), ids);
                &&& conns_view(final(self).connections@) == w1.conns
                &&& pcs_view(final(self).pcs@) == w1.pcs
                &&& out_view(final(out)@) == w1.out
            }),
            final(self).connections == old(self).connections,
            final(self).maps == old(self).maps,
            final(self).mappings == old(self).mappings,
            final(self).queue == old(self).queue,
            mappings_sent(final(out)@, old(self).mappings),
    {
        proof {
            reveal_strlit("User already logged in");
        }
        let ghost w0 = World { conns: conns_view(self.connections@), pcs: pcs_view(self.pcs@), out: out_view(out@), fresh: fresh };
        let ghost name = login.name@;
        let camera = Camera::new(&(login.width as u32), &(login.height as u32));
        let id = match self.connections.get(&addr) {
            None => {
                return;
            },
            Some(connection) => connection.id,
        };
        assert(w0.conns.contains_key(addr) && w0.conns[addr] == id);
        let ghost out0 = out@;
        let ghost mut seen: Set<ConnAddr> = Set::empty();
        let mut exists = false;
        for p in it: self.connections.iter()
            invariant
                w0 == (World { conns: conns_view(self.connections@), pcs: pcs_view(self.pcs@), out: out_view(out0), fresh: fresh }),
                name == login.name@,
                seen.finite(),
                exists == (seen.len() > 0),
                forall|a: ConnAddr| #[trigger] seen.contains(a) ==> logged_in_as(w0, name).contains(a),
                forall|j: int| 0 <= j < it.index() && logged_in_as(w0, name).contains(*(#[trigger] it.seq()[j]).0) ==> seen.contains(*it.seq()[j].0),
                forall|a: ConnAddr| #[trigger] seen.contains(a) ==> exists|j: int| 0 <= j < it.index() && *(#[trigger] it.seq()[j]).0 == a,
                forall|j: int| 0 <= j < it.seq().len() ==> self.connections@.contains_key(*(#[trigger] it.seq()[j]).0)
                    && self.connections@[*it.seq()[j].0] == *it.seq()[j].1,
                forall|a: ConnAddr| #[trigger] self.connections@.contains_key(a) ==> exists|j: int| 0 <= j < it.seq().len() && *(#[trigger] it.seq()[j]).0 == a,
                it.seq().no_duplicates(),
                out_view(out@) == out_view(out0) + copies(seen.len(), (addr, Sent::Result(3, "User already logged in"@))),
                mappings_sent(out@, self.mappings),
        {
            let (a, existing) = p;
            match self.pcs.get(&existing.id) {
                Some(pc) => {
                    if str_eq(pc.name.as_str(), login.name.as_str()) {
                        let ghost before = out@;
                        out.push((addr, Msg::LoginResult(3, "User already logged in".to_owned())));
                        proof {
                            assert(logged_in_as(w0, name).contains(*a));
                            assert(!seen.contains(*a)) by {
                                if seen.contains(*a) {
                                    let j = choose|j: int| 0 <= j < it.index() && *(#[trigger] it.seq()[j]).0 == *a;
                                    assert(it.seq()[it.index() as int] == p);
                                    assert(*it.seq()[j].1 == self.connections@[*a]);
                                    assert(it.seq()[j] == it.seq()[it.index() as int]);
                                }
                            }
                            seen = seen.insert(*a);
                            assert(out_view(out@) =~= out_view(before).push((addr, Sent::Result(3, "User already logged in"@))));
                            assert(copies(seen.len(), (addr, Sent::Result(3, "User already logged in"@))) =~= copies((seen.len() - 1) as nat, (addr, Sent::Result(3, "User already logged in"@))).push((addr, Sent::Result(3, "User already logged in"@))));
                            assert forall|k: int| 0 <= k < out@.len() implies ((#[trigger] out@[k]).1 matches Msg::TileMapping(m) ==> (m.wf()
                                && forall|key: Seq<char>| #[trigger] m.lookup(key) == self.mappings.lookup(key))) by {
                                if k < before.len() {
                                    assert(out@[k] == before[k]);
                                }
                            }
                        }
                        exists = true;
                    }
                },
                None => {},
            }
        }
        assert(seen =~= logged_in_as(w0, name));
        if exists {
            return;
        }
        let ghost out1 = out@;
        let ghost p0 = self.pcs@;
        let mut keys: Vec<u128> = Vec::new();
        for k in kit: self.pcs.keys()
            invariant
                p0 == self.pcs@,
                keys@.len() == kit.index(),
                forall|j: int| #![trigger keys@[j]] #![trigger kit.seq()[j]] 0 <= j < kit.index() ==> keys@[j] == *kit.seq()[j],
                kit.seq().no_duplicates(),
                forall|a: int, b: int| 0 <= a < kit.index() && 0 <= b < kit.index() && a != b ==> #[trigger] keys@[a] != #[trigger] keys@[b],
                forall|key: u128| #[trigger] p0.contains_key(key) ==> exists|j: int| 0 <= j < kit.seq().len() && *(#[trigger] kit.seq()[j]) == key,
        {
            proof {
                assert(kit.seq()[kit.index() as int] == k);
                assert forall|a: int| 0 <= a < kit.index() implies keys@[a] != *k by {
                    assert(kit.seq()[a] != kit.seq()[kit.index() as int]);
                }
            }
            keys.push(*k);
        }
        assert(forall|key: u128| #[trigger] p0.contains_key(key) ==> exists|j: int| 0 <= j < keys@.len() && #[trigger] keys@[j] == key);
        assert(forall|i: int, j: int| 0 <= i < keys@.len() && 0 <= j < keys@.len() && i != j ==> #[trigger] keys@[i] != #[trigger] keys@[j]);
        let ghost own = named(w0, name);
        let ghost mut seen2: Set<u128> = Set::empty();
        let n = keys.len();
        let mut i: usize = 0;
        while i < n
            invariant
                n == keys@.len(),
                i <= n,
                w0.pcs == pcs_view(p0),
                w0.conns == conns_view(self.connections@),
                w0.out == out_view(out0),
                own == named(w0, name),
                name == login.name@,
                forall|key: u128| #[trigger] p0.contains_key(key) ==> exists|j: int| 0 <= j < keys@.len() && #[trigger] keys@[j] == key,
                forall|a: int, b: int| 0 <= a < keys@.len() && 0 <= b < keys@.len() && a != b ==> #[trigger] keys@[a] != #[trigger] keys@[b],
                self.pcs@.dom() == p0.dom(),
                seen2.finite(),
                exists == (seen2.len() > 0),
                forall|key: u128| #[trigger] seen2.contains(key) <==> exists|j: int| 0 <= j < i && #[trigger] keys@[j] == key && own.contains(key),
                forall|key: u128| #[trigger] p0.contains_key(key) ==> pcs_view(self.pcs@)[key] == (if seen2.contains(key) {
                    (id, pcs_view(p0)[key].1, pcs_view(p0)[key].2)
                } else {
                    pcs_view(p0)[key]
                }),
                forall|key: u128| #[trigger] p0.contains_key(key) && !seen2.contains(key) ==> self.pcs@[key] == p0[key],
                out_view(out@) == out_view(out1) + copies(seen2.len(), (addr, Sent::Result(4, Seq::empty()))),
                out_view(out1) == out_view(out0),
                mappings_sent(out@, self.mappings),
                self.connections == old(self).connections,
                self.mappings == old(self).mappings,
                self.maps == old(self).maps,
                self.queue == old(self).queue,
            decreases n - i,
        {
            let k = keys[i];
            proof {
                assert(!seen2.contains(k)) by {
                    if seen2.contains(k) {
                        let j = choose|j: int| 0 <= j < i && #[trigger] keys@[j] == k && own.contains(k);
                    }
                }
            }
            let matches = match self.pcs.get(&k) {
                Some(pc) => str_eq(pc.name.as_str(), login.name.as_str()),
                None => false,
            };
            assert(matches == own.contains(k));
            if matches {
                let mut pc = self.pcs.remove(&k).unwrap();
                pc.id = id;
                self.pcs.insert(k, pc);
                let ghost before = out@;
                out.push((addr, Msg::LoginResult(4, String::new())));
                proof {
                    seen2 = seen2.insert(k);
                    assert(out_view(out@) =~= out_view(before).push((addr, Sent::Result(4, Seq::empty()))));
                    assert(copies(seen2.len(), (addr, Sent::Result(4, Seq::empty()))) =~= copies((seen2.len() - 1) as nat, (addr, Sent::Result(4, Seq::empty()))).push((addr, Sent::Result(4, Seq::empty()))));
                    assert forall|kk: int| 0 <= kk < out@.len() implies ((#[trigger] out@[kk]).1 matches Msg::TileMapping(m) ==> (m.wf()
                        && forall|key: Seq<char>| #[trigger] m.lookup(key) == self.mappings.lookup(key))) by {
                        if kk < before.len() {
                            assert(out@[kk] == before[kk]);
                        }
                    }
                    assert(self.pcs@.dom() =~= p0.dom());
                }
                exists = true;
            }
            i = i + 1;
        }
        proof {
            assert(seen2 =~= own) by {
                assert forall|key: u128| own.contains(key) implies seen2.contains(key) by {
                    assert(p0.contains_key(key));
                    let j = choose|j: int| 0 <= j < keys@.len() && #[trigger] keys@[j] == key;
                }
            }
        }
        if !exists {
            let pc = Pc::new(id, login.name.as_str(), camera);
            self.pcs.insert(id, pc);
            proof {
                assert(own.len() == 0);
                assert(pcs_view(self.pcs@) =~= pcs_view(p0).insert(id, (id, name, Camera { width: login.width as u32, height: login.height as u32 })));
            }
        } else {
            proof {
                assert(pcs_view(self.pcs@) =~= Map::new(
                    |k: u128| w0.pcs.contains_key(k),
                    |k: u128| if own.contains(k) { (id, w0.pcs[k].1, w0.pcs[k].2) } else { w0.pcs[k] },
                ));
            }
        }
        let ghost before = out@;
        let mapping = self.mappings.duplicate();
        out.push((addr, Msg::TileMapping(mapping)));
        proof {
            assert(out_view(out@) =~= out_view(before).push((addr, Sent::Mappings)));
            assert forall|kk: int| 0 <= kk < out@.len() implies ((#[trigger] out@[kk]).1 matches Msg::TileMapping(m) ==> (m.wf()
                && forall|key: Seq<char>| #[trigger] m.lookup(key) == self.mappings.lookup(key))) by {
                if kk < before.len() {
                    assert(out@[kk] == before[kk]);
                }
            }
        }
    }
}


/// `ids` is a list of new ids as `new_id` gives them.
pub open spec fn fresh_ids(ids: Seq<u128>) -> bool {
    forall|i: int| 0 <= i < ids.len() ==> ((#[trigger] ids[i]) >> 76u128) & 0xfu128 == 4 && (ids[i] >> 62u128) & 0x3u128 == 2
}

proof fn lemma_run_ids(w: World, q: Seq<Msg>, ids: Seq<u128>, more: Seq<u128>)
    requires
        w.fresh + connects(q) <= ids.len(),
    ensures
        run_messages(w, q, ids) == run_messages(w, q, ids + more),
        run_messages(w, q, ids).fresh == w.fresh + connects(q),
    decreases q.len(),
{
    if q.len() > 0 {
        lemma_run_ids(w, q.drop_last(), ids, more);
        let v = run_messages(w, q.drop_last(), ids);
        if q.last() is Connect {
            assert((ids + more)[v.fresh as int] == ids[v.fresh as int]);
        }
    }
}

/// The maps after a round: each map's queued steps are run (see
/// `WorldMap::execute`).
pub open spec fn maps_run(before: Seq<(String, WorldMap)>, after: Seq<(String, WorldMap)>) -> bool {
    &&& after.len() == before.len()
    &&& forall|m: int| 0 <= m < before.len() ==> {
        &&& (#[trigger] after[m]).0 == before[m].0
        &&& after[m].1.players@ == after_steps(before[m].1.players@, before[m].1.queue@)
        &&& after[m].1.queue == before[m].1.queue
        &&& after[m].1.objects == before[m].1.objects
        &&& after[m].1.tiles == before[m].1.tiles
        &&& after[m].1.width == before[m].1.width
        &&& after[m].1.height == before[m].1.height
        &&& after[m].1.modifiers == before[m].1.modifiers
    }
}

impl Game {
    /// One round of the game. The queued messages are taken in order (see
    /// `on_message`; the queue is kept as it is); a command for a known
    /// character is read (and not acted on yet). Then each map runs its
    /// queued commands. Gives what is to be sent to which connection.
    pub fn tick(&mut self) -> (r: Result<Vec<(ConnAddr, Msg)>, ()>)
        requires
            old(self).mappings.wf(),
            old(self).maps.wf(),
            commands_readable(old(self).queue@),
        ensures
            r matches Ok(out) && exists|ids: Seq<u128>| #![trigger run_messages(
                World { conns: conns_view(old(self).connections@), pcs: pcs_view(old(self).pcs@), out: Seq::empty(), fresh: 0 },
                old(self).queue@,
                ids,
            )]
                ids.len() == connects(old(self).queue@) && fresh_ids(ids) && {
                let w = run_messages(
                    World { conns: conns_view(old(self).connections@), pcs: pcs_view(old(self).pcs@), out: Seq::empty(), fresh: 0 },
                    old(self).queue@,
                    ids,
                );
                &&& conns_view(final(self).connections@) == w.conns
                &&& pcs_view(final(self).pcs@) == w.pcs
                &&& out_view(out@) == w.out
            },
            r matches Ok(out) && mappings_sent(out@, old(self).mappings),
            final(self).queue == old(self).queue,
            final(self).mappings == old(self).mappings,
            final(self).maps.wf(),
            maps_run(old(self).maps.entries(), final(self).maps.entries()),
    {
        let mut out: Vec<(ConnAddr, Msg)> = Vec::new();
        let mut queue: Vec<Msg> = Vec::new();
        std::mem::swap(&mut queue, &mut self.queue);
        let ghost w0 = World { conns: conns_view(self.connections@), pcs: pcs_view(self.pcs@), out: Seq::empty(), fresh: 0 };
        let ghost mut ids: Seq<u128> = Seq::empty();
        let n = queue.len();
        let mut i: usize = 0;
        assert(queue@.take(0) =~= Seq::<Msg>::empty());
        while i < n
            invariant
                n == queue@.len(),
                i <= n,
                queue@ == old(self).queue@,
                commands_readable(queue@),
                self.mappings == old(self).mappings,
                self.mappings.wf(),
                self.maps == old(self).maps,
                self.queue@.len() == 0,
                w0 == (World { conns: conns_view(old(self).connections@), pcs: pcs_view(old(self).pcs@), out: Seq::empty(), fresh: 0 }),
                ids.len() == connects(queue@.take(i as int)),
                fresh_ids(ids),
                ({
                    let w = run_messages(w0, queue@.take(i as int), ids);
                    &&& conns_view(self.connections@) == w.conns
                    &&& pcs_view(self.pcs@) == w.pcs
                    &&& out_view(out@) == w.out
                    &&& w.fresh == ids.len()
                }),
                mappings_sent(out@, self.mappings),
            decreases n - i,
        {
            let ghost wi = run_messages(w0, queue@.take(i as int), ids);
            proof {
                assert(queue@.take(i + 1).drop_last() =~= queue@.take(i as int));
                assert(queue@.take(i + 1).last() == queue@[i as int]);
                lemma_run_ids(w0, queue@.take(i as int), ids, Seq::empty());
            }
            match &queue[i] {
                Msg::Login(addr, login) => {
                    self.handle_login(*addr, login, &mut out, Ghost(ids), Ghost(wi.fresh));
                },
                Msg::Timeout(addr) => {
                    self.connections.remove(addr);
                    proof {
                        assert(conns_view(self.connections@) =~= wi.conns.remove(*addr));
                    }
                },
                Msg::Command(addr, command) => {
                    assert(queue@[i as int] matches Msg::Command(_, c) ==> command_readable(c@));
                    match self.connections.get(addr) {
                        Some(conn) => {
                            match self.pcs.get(&conn.id) {
                                Some(pc) => {
                                    let _ = pc.add_command(command.as_str());
                                },
                                None => {},
                            }
                        },
                        None => {},
                    }
                },
                Msg::Connect(addr) => {
                    let id = new_id();
                    self.connections.insert(*addr, Connection::new(id));
                    proof {
                        let old_ids = ids;
                        ids = ids.push(id);
                        lemma_run_ids(w0, queue@.take(i as int), old_ids, seq![id]);
                        assert(old_ids + seq![id] =~= ids);
                        assert(ids[wi.fresh as int] == id);
                        assert(conns_view(self.connections@) =~= wi.conns.insert(*addr, id));
                    }
                },
                _ => {},
            }
            proof {
                if !(queue@[i as int] is Connect) {
                    assert(connects(queue@.take(i + 1)) == connects(queue@.take(i as int)));
                }
            }
            i = i + 1;
        }
        assert(queue@.take(n as int) =~= queue@);
        self.queue = queue;
        self.run_maps();
        Ok(out)
    }
}


impl Game {
    /// Each map runs its queued commands (see `maps_run`); its players'
    /// characters are asked for their next step first (none is planned).
    fn run_maps(&mut self)
        requires
            old(self).maps.wf(),
        ensures
            final(self).maps.wf(),
            maps_run(old(self).maps.entries(), final(self).maps.entries()),
            final(self).connections == old(self).connections,
            pcs_view(final(self).pcs@) == pcs_view(old(self).pcs@),
            final(self).queue == old(self).queue,
            final(self).mappings == old(self).mappings,
    {
        let ghost maps0 = self.maps.entries();
        let ghost pcs0 = pcs_view(self.pcs@);
        let nm = self.maps.len();
        let mut m: usize = 0;
        while m < nm
            invariant
                nm == maps0.len(),
                m <= nm,
                self.maps.wf(),
                self.maps.entries().len() == nm,
                forall|k: int| m <= k < nm ==> #[trigger] self.maps.entries()[k] == maps0[k],
                maps_run(maps0.take(m as int), self.maps.entries().take(m as int)),
                maps0 == old(self).maps.entries(),
                pcs_view(self.pcs@) == pcs0,
                pcs0 == pcs_view(old(self).pcs@),
                self.connections == old(self).connections,
                self.queue == old(self).queue,
                self.mappings == old(self).mappings,
            decreases nm - m,
        {
            let ghost before = self.maps.entries();
            let mut map = self.maps.swap_value(m, WorldMap::new(""));
            assert(map == maps0[m as int].1);
            let ghost mid = self.maps.entries();
            let mut keys: Vec<u128> = Vec::new();
            for k in map.players.keys() {
                keys.push(*k);
            }
            let mut j: usize = 0;
            while j < keys.len()
                invariant
                    j <= keys@.len(),
                    pcs_view(self.pcs@) == pcs0,
                    self.maps.wf(),
                    self.maps.entries() == mid,
                    map == maps0[m as int].1,
                    self.connections == old(self).connections,
                    self.queue == old(self).queue,
                    self.mappings == old(self).mappings,
                decreases keys@.len() - j,
            {
                let id = keys[j];
                let ghost p_before = self.pcs@;
                match self.pcs.remove(&id) {
                    Some(pc) => {
                        let mut pc = pc;
                        match map.players.get(&id) {
                            Some(p) => {
                                let pos = *p;
                                let _movement = pc.next_movement(&map, &pos);
                            },
                            None => {},
                        }
                        self.pcs.insert(id, pc);
                        assert(self.pcs@ =~= p_before);
                    },
                    None => {},
                }
                j = j + 1;
            }
            let _reactions = map.execute();
            let _placeholder = self.maps.swap_value(m, map);
            proof {
                assert forall|k: int| 0 <= k < m + 1 implies {
                    &&& (#[trigger] self.maps.entries().take(m + 1)[k]).0 == maps0.take(m + 1)[k].0
                    &&& self.maps.entries().take(m + 1)[k].1.players@ == after_steps(maps0.take(m + 1)[k].1.players@, maps0.take(m + 1)[k].1.queue@)
                    &&& self.maps.entries().take(m + 1)[k].1.queue == maps0.take(m + 1)[k].1.queue
                    &&& self.maps.entries().take(m + 1)[k].1.objects == maps0.take(m + 1)[k].1.objects
                    &&& self.maps.entries().take(m + 1)[k].1.tiles == maps0.take(m + 1)[k].1.tiles
                    &&& self.maps.entries().take(m + 1)[k].1.width == maps0.take(m + 1)[k].1.width
                    &&& self.maps.entries().take(m + 1)[k].1.height == maps0.take(m + 1)[k].1.height
                    &&& self.maps.entries().take(m + 1)[k].1.modifiers == maps0.take(m + 1)[k].1.modifiers
                } by {
                    if k < m {
                        assert(self.maps.entries()[k] == before[k]);
                        assert(before.take(m as int)[k] == before[k]);
                    }
                }
                assert(maps_run(maps0.take(m + 1), self.maps.entries().take(m + 1)));
            }
            m = m + 1;
        }
        assert(maps0.take(nm as int) =~= maps0);
        assert(self.maps.entries().take(nm as int) =~= self.maps.entries());
    }
}

} // verus!
