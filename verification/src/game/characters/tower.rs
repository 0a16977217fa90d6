//! Towers: they shoot at the player that has stayed in their range longest.

use vstd::prelude::*;
use std::collections::HashMap;
use crate::game::characters::{Direction, Token};
use crate::text::{chars_of, decimal, decimal_chars, push_all, string_of};

verus! {

broadcast use vstd::std_specs::hash::group_hash_axioms;

/// A tower and, for each player in its range, for how many rounds it has
/// been there.
#[derive(Clone)]
pub struct Tower {
    pub tile: String,
    pub hp: i32,
    pub max_hp: i32,
    pub launch_speed: u8,
    pub launch_ticks: u8,
    pub target_priorities: HashMap<Token, u64>,
    pub last_priority: Option<Token>,
}

/// The counts after a round in which the players of `tokens` are in range:
/// one more for those already counted, one for newcomers; the others drop
/// out.
pub open spec fn counts_after(old: Map<Token, u64>, tokens: Seq<Token>) -> Map<Token, u64> {
    Map::new(
        |t: Token| tokens.contains(t),
        |t: Token| if old.contains_key(t) { (old[t] + 1) as u64 } else { 1u64 },
    )
}

/// `t` has the highest count of `m`, and it is above zero.
pub open spec fn is_top(m: Map<Token, u64>, t: Token) -> bool {
    &&& m.contains_key(t)
    &&& m[t] > 0
    &&& forall|k: Token| m.contains_key(k) ==> m[k] <= m[t]
}

/// The command that shoots at the player of connection `t`.
pub open spec fn shoot_command(t: Token) -> Seq<char> {
    "TowerShoot "@ + decimal(t as nat)
}

impl Tower {
    /// A tower with 140 hit points that shoots every 200 ticks.
    pub fn new() -> (r: Tower)
        ensures
            r.tile@ == "statics/soko_tower"@,
            r.hp == 140,
            r.max_hp == 140,
            r.launch_speed == 200,
            r.launch_ticks == 0,
            r.target_priorities@ == Map::<Token, u64>::empty(),
            r.last_priority is None,
    {
        Tower {
            tile: "statics/soko_tower".to_owned(),
            hp: 140,
            max_hp: 140,
            launch_speed: 200,
            launch_ticks: 0,
            target_priorities: HashMap::new(),
            last_priority: None,
        }
    }

    /// When the launcher is ready (at least `launch_speed` ticks) and some
    /// player has a count above zero, shoots at the player with the highest
    /// count and restarts the ticks; otherwise counts one more tick, up to
    /// 255.
    pub fn get_command(&mut self) -> (r: Option<String>)
        ensures
            final(self).target_priorities@ == old(self).target_priorities@,
            final(self).launch_speed == old(self).launch_speed,
            final(self).tile == old(self).tile,
            match r {
                Some(s) => old(self).launch_ticks >= old(self).launch_speed && final(self).launch_ticks == 0
                    && exists|t: Token| is_top(old(self).target_priorities@, t) && s@ == shoot_command(t),
                None => final(self).launch_ticks == (if old(self).launch_ticks < 255 { old(self).launch_ticks + 1 } else { 255 })
                    && (old(self).launch_ticks >= old(self).launch_speed ==> forall|k: Token|
                        old(self).target_priorities@.contains_key(k) ==> old(self).target_priorities@[k] == 0),
            },
    {
        let player = self.get_highest_priority();
        if self.launch_ticks >= self.launch_speed && player.is_some() {
            self.launch_ticks = 0;
            let t = player.unwrap();
            let mut v = chars_of("TowerShoot ");
            push_all(&mut v, &decimal_chars(t as u64));
            let s = string_of(&v);
            assert(is_top(old(self).target_priorities@, t) && s@ == shoot_command(t));
            Some(s)
        } else {
            self.launch_ticks = if self.launch_ticks < 255 {
                self.launch_ticks + 1
            } else {
                255
            };
            None
        }
    }

    /// The player with the highest count, if any count is above zero. Among
    /// equal counts the one met first in the map's order is taken.
    pub fn get_highest_priority(&mut self) -> (r: Option<Token>)
        ensures
            *final(self) == *old(self),
            match r {
                Some(t) => is_top(old(self).target_priorities@, t),
                None => forall|k: Token| old(self).target_priorities@.contains_key(k)
                    ==> old(self).target_priorities@[k] == 0,
            },
    {
        let mut max: u64 = 0;
        let mut conn: Option<Token> = None;
        let ghost m = self.target_priorities@;
        for p in it: self.target_priorities.iter()
            invariant
                m == self.target_priorities@,
                conn matches Some(t) ==> m.contains_key(t) && m[t] == max && max > 0,
                conn is None ==> max == 0,
                forall|j: int| 0 <= j < it.index() ==> *(#[trigger] it.seq()[j]).1 <= max,
                forall|j: int| 0 <= j < it.seq().len() ==> m.contains_key(*(#[trigger] it.seq()[j]).0)
                    && m[*it.seq()[j].0] == *it.seq()[j].1,
                forall|k: Token| #[trigger] m.contains_key(k) ==> exists|j: int| 0 <= j < it.seq().len() && *(#[trigger] it.seq()[j]).0 == k,
        {
            let (token, total) = p;
            if *total > max {
                max = *total;
                conn = Some(*token);
            }
        }
        conn
    }

    /// A round in which the players of `tokens` are in range (see
    /// `counts_after`).
    pub fn push_tokens(&mut self, tokens: Vec<Token>)
        requires
            forall|t: Token| old(self).target_priorities@.contains_key(t) ==> old(self).target_priorities@[t] < u64::MAX,
        ensures
            final(self).target_priorities@ == counts_after(old(self).target_priorities@, tokens@),
            final(self).launch_ticks == old(self).launch_ticks,
            final(self).launch_speed == old(self).launch_speed,
    {
        let ghost old_map = self.target_priorities@;
        let mut temp: HashMap<Token, u64> = HashMap::new();
        for i in 0..tokens.len()
            invariant
                old_map == self.target_priorities@,
                forall|t: Token| old_map.contains_key(t) ==> old_map[t] < u64::MAX,
                temp@ == counts_after(old_map, tokens@.take(i as int)),
        {
            let t = tokens[i];
            let v: u64 = match self.target_priorities.get(&t) {
                Some(total) => *total + 1,
                None => 1,
            };
            temp.insert(t, v);
            proof {
                let s = tokens@.take(i + 1);
                assert(s =~= tokens@.take(i as int).push(t));
                assert forall|k: Token| #[trigger] s.contains(k) <==> (tokens@.take(i as int).contains(k) || k == t) by {
                    if s.contains(k) {
                        let j = choose|j: int| 0 <= j < s.len() && s[j] == k;
                        if j < i {
                            assert(tokens@.take(i as int)[j] == k);
                        }
                    }
                    if tokens@.take(i as int).contains(k) {
                        let j = choose|j: int| 0 <= j < i && tokens@.take(i as int)[j] == k;
                        assert(s[j] == k);
                    }
                    if k == t {
                        assert(s[i as int] == k);
                    }
                }
                assert(temp@ =~= counts_after(old_map, s));
            }
        }
        assert(tokens@.take(tokens@.len() as int) =~= tokens@);
        self.target_priorities = temp;
    }

    /// The art of a tower.
    pub fn get_tile(&self) -> (r: String)
        ensures
            r@ == "statics/soko_tower"@,
    {
        "statics/soko_tower".to_owned()
    }

    /// Towers stand still.
    pub fn does_move(&self) -> (r: bool)
        ensures
            !r,
    {
        false
    }

    /// Towers do not turn.
    pub fn set_direction(&mut self, dir: Direction)
        ensures
            *final(self) == *old(self),
    {
    }
}

} // verus!
