//! A map from text keys to values, kept as a list of entries in insertion
//! order with no key twice.

use vstd::prelude::*;

use crate::text::{chars_of, matches_at};

verus! {

/// Map from strings to values. Lookups compare keys by their characters.
pub struct StrMap<V> {
    entries: Vec<(String, V)>,
}

/// The keys of an entry list, by their characters.
pub open spec fn key_seq<V>(e: Seq<(String, V)>) -> Seq<Seq<char>> {
    e.map_values(|p: (String, V)| p.0@)
}

/// No key occurs twice.
pub open spec fn distinct_keys<V>(e: Seq<(String, V)>) -> bool {
    forall|i: int, j: int|
        0 <= i < e.len() && 0 <= j < e.len() && i != j ==> (#[trigger] e[i]).0@ != (#[trigger] e[j]).0@
}

/// Position of key `k` in the entry list, if present.
pub open spec fn key_pos<V>(e: Seq<(String, V)>, k: Seq<char>) -> Option<int> {
    if exists|i: int| 0 <= i < e.len() && (#[trigger] e[i]).0@ == k {
        Some(choose|i: int| 0 <= i < e.len() && (#[trigger] e[i]).0@ == k)
    } else {
        None
    }
}

impl<V> StrMap<V> {
    /// The entries, in insertion order.
    pub closed spec fn entries(&self) -> Seq<(String, V)> {
        self.entries@
    }

    pub closed spec fn wf(&self) -> bool {
        distinct_keys(self.entries@)
    }

    /// The value stored for key `k`.
    pub open spec fn lookup(&self, k: Seq<char>) -> Option<V> {
        match key_pos(self.entries(), k) {
            Some(i) => Some(self.entries()[i].1),
            None => None,
        }
    }

    /// An empty map.
    pub fn new() -> (m: Self)
        ensures
            m.wf(),
            m.entries() == Seq::<(String, V)>::empty(),
    {
        StrMap { entries: Vec::new() }
    }

    /// Number of entries.
    pub fn len(&self) -> (n: usize)
        ensures
            n == self.entries().len(),
    {
        self.entries.len()
    }

    /// The `i`-th entry in insertion order.
    pub fn entry(&self, i: usize) -> (r: &(String, V))
        requires
            i < self.entries().len(),
        ensures
            *r == self.entries()[i as int],
    {
        &self.entries[i]
    }

    /// Position of the entry whose key is `key`.
    pub fn position(&self, key: &str) -> (r: Option<usize>)
        requires
            self.wf(),
        ensures
            r == match key_pos(self.entries(), key@) {
                Some(i) => Some(i as usize),
                None => None::<usize>,
            },
            r matches Some(i) ==> i < self.entries().len() && self.entries()[i as int].0@ == key@,
    {
        let kv = chars_of(key);
        let mut i: usize = 0;
        while i < self.entries.len()
            invariant
                i <= self.entries@.len(),
                kv@ == key@,
                distinct_keys(self.entries@),
                forall|j: int| 0 <= j < i ==> (#[trigger] self.entries@[j]).0@ != key@,
            decreases self.entries@.len() - i,
        {
            let ev = chars_of(self.entries[i].0.as_str());
            if ev.len() == kv.len() && matches_at(&ev, &kv, 0) {
                proof {
                    assert(ev@.subrange(0, kv@.len() as int) =~= ev@);
                    assert(self.entries@[i as int].0@ == key@);
                    let w = choose|j: int|
                        0 <= j < self.entries@.len() && (#[trigger] self.entries@[j]).0@ == key@;
                    assert(w == i as int) by {
                        if w != i as int {
                            assert(self.entries@[w].0@ == self.entries@[i as int].0@);
                        }
                    }
                }
                return Some(i);
            }
            proof {
                if ev@ == kv@ {
                    assert(ev@.subrange(0, kv@.len() as int) =~= ev@);
                }
            }
            i = i + 1;
        }
        None
    }

    /// `HashMap::get`.
    pub fn get(&self, key: &str) -> (r: Option<&V>)
        requires
            self.wf(),
        ensures
            r matches Some(v) ==> self.lookup(key@) == Some(*v),
            r is None ==> self.lookup(key@) is None,
    {
        match self.position(key) {
            Some(i) => Some(&self.entries[i].1),
            None => None,
        }
    }

    /// `HashMap::insert`: replaces the value of an existing key in place, or
    /// adds a new entry at the end.
    pub fn insert(&mut self, key: String, value: V)
        requires
            old(self).wf(),
        ensures
            final(self).wf(),
            match key_pos(old(self).entries(), key@) {
                Some(i) => final(self).entries() == old(self).entries().update(
                    i,
                    (old(self).entries()[i].0, value),
                ),
                None => final(self).entries() == old(self).entries().push((key, value)),
            },
            final(self).lookup(key@) == Some(value),
            forall|k: Seq<char>| k != key@ ==> #[trigger] final(self).lookup(k) == old(self).lookup(k),
    {
        let ghost e0 = self.entries@;
        match self.position(key.as_str()) {
            Some(i) => {
                let ghost e = self.entries@;
                let k = self.entries[i].0.clone();
                self.entries.set(i, (k, value));
                proof {
                    assert(self.entries@ =~= e.update(i as int, (e[i as int].0, value)));
                    assert(distinct_keys(self.entries@)) by {
                        assert forall|a: int, b: int|
                            0 <= a < self.entries@.len() && 0 <= b < self.entries@.len() && a
                                != b implies (#[trigger] self.entries@[a]).0@
                            != (#[trigger] self.entries@[b]).0@ by {
                            assert(self.entries@[a].0@ == e[a].0@);
                            assert(self.entries@[b].0@ == e[b].0@);
                        }
                    }
                    let p = key_pos(self.entries@, key@);
                    assert(self.entries@[i as int].0@ == key@);
                    let w = choose|j: int|
                        0 <= j < self.entries@.len() && (#[trigger] self.entries@[j]).0@ == key@;
                    assert(w == i as int) by {
                        if w != i as int {
                            assert(self.entries@[w].0@ == self.entries@[i as int].0@);
                        }
                    }
                }
            },
            None => {
                let ghost e = self.entries@;
                self.entries.push((key, value));
                proof {
                    let n = e.len() as int;
                    assert(self.entries@[n].0@ == key@);
                    assert(distinct_keys(self.entries@)) by {
                        assert forall|a: int, b: int|
                            0 <= a < self.entries@.len() && 0 <= b < self.entries@.len() && a
                                != b implies (#[trigger] self.entries@[a]).0@
                            != (#[trigger] self.entries@[b]).0@ by {
                            if a < n && b < n {
                                assert(self.entries@[a] == e[a]);
                                assert(self.entries@[b] == e[b]);
                            } else if a < n {
                                assert(self.entries@[a] == e[a]);
                            } else if b < n {
                                assert(self.entries@[b] == e[b]);
                            }
                        }
                    }
                    let w = choose|j: int|
                        0 <= j < self.entries@.len() && (#[trigger] self.entries@[j]).0@ == key@;
                    assert(w == n) by {
                        if w != n {
                            assert(self.entries@[w] == e[w]);
                        }
                    }
                }
            },
        }
        proof {
            assert forall|k: Seq<char>| k != key@ implies #[trigger] self.lookup(k) == old(self).lookup(k) by {
                let e1 = self.entries@;
                assert(e1.len() >= e0.len());
                assert forall|j: int| 0 <= j < e1.len() && (#[trigger] e1[j]).0@ == k implies j < e0.len() && e0[j] == e1[j] by {
                    if j >= e0.len() {
                        assert(e1[j].0@ == key@);
                    }
                }
                if exists|j: int| 0 <= j < e0.len() && (#[trigger] e0[j]).0@ == k {
                    let j0 = choose|j: int| 0 <= j < e0.len() && (#[trigger] e0[j]).0@ == k;
                    assert(e1[j0].0@ == k);
                    let j1 = choose|j: int| 0 <= j < e1.len() && (#[trigger] e1[j]).0@ == k;
                    assert(e0[j1] == e1[j1]);
                    assert(j0 == j1) by {
                        if j0 != j1 {
                            assert(e0[j0].0@ == e0[j1].0@);
                        }
                    }
                } else {
                    assert forall|j: int| 0 <= j < e1.len() implies (#[trigger] e1[j]).0@ != k by {
                        if j < e0.len() && e1[j].0@ == k {
                            assert(e0[j].0@ == k);
                        }
                    }
                }
            }
        }
    }
}


impl<V> StrMap<V> {
    /// Puts `value` in place of the value of the `i`-th entry and gives the
    /// value it held.
    pub fn swap_value(&mut self, i: usize, value: V) -> (r: V)
        requires
            old(self).wf(),
            i < old(self).entries().len(),
        ensures
            final(self).wf(),
            r == old(self).entries()[i as int].1,
            final(self).entries() == old(self).entries().update(i as int, (old(self).entries()[i as int].0, value)),
    {
        let ghost e = self.entries@;
        let mut entries: Vec<(String, V)> = Vec::new();
        std::mem::swap(&mut entries, &mut self.entries);
        let (k, v) = entries.remove(i);
        entries.insert(i, (k, value));
        assert(entries@ =~= e.update(i as int, (e[i as int].0, value)));
        assert(distinct_keys(entries@)) by {
            assert forall|a: int, b: int|
                0 <= a < entries@.len() && 0 <= b < entries@.len() && a != b implies (#[trigger] entries@[a]).0@
                != (#[trigger] entries@[b]).0@ by {
                assert(entries@[a].0@ == e[a].0@);
                assert(entries@[b].0@ == e[b].0@);
            }
        }
        self.entries = entries;
        v
    }
}

impl<V: Copy> StrMap<V> {
    /// A copy of the map.
    pub fn duplicate(&self) -> (r: StrMap<V>)
        requires
            self.wf(),
        ensures
            r.wf(),
            key_seq(r.entries()) == key_seq(self.entries()),
            forall|i: int| 0 <= i < r.entries().len() ==> (#[trigger] r.entries()[i]).1 == self.entries()[i].1,
            r.entries().len() == self.entries().len(),
            forall|k: Seq<char>| #[trigger] r.lookup(k) == self.lookup(k),
    {
        let mut entries: Vec<(String, V)> = Vec::new();
        let n = self.entries.len();
        let mut i: usize = 0;
        while i < n
            invariant
                n == self.entries@.len(),
                i <= n,
                entries@.len() == i,
                forall|j: int| 0 <= j < i ==> (#[trigger] entries@[j]).0@ == self.entries@[j].0@ && entries@[j].1 == self.entries@[j].1,
            decreases n - i,
        {
            let k = self.entries[i].0.clone();
            let v = self.entries[i].1;
            entries.push((k, v));
            i = i + 1;
        }
        let r = StrMap { entries: entries };
        proof {
            assert(key_seq(r.entries()) =~= key_seq(self.entries()));
            assert(distinct_keys(r.entries@)) by {
                assert forall|a: int, b: int|
                    0 <= a < r.entries@.len() && 0 <= b < r.entries@.len() && a != b implies (#[trigger] r.entries@[a]).0@
                    != (#[trigger] r.entries@[b]).0@ by {
                    assert(self.entries@[a].0@ != self.entries@[b].0@);
                }
            }
            assert forall|k: Seq<char>| #[trigger] r.lookup(k) == self.lookup(k) by {
                let e0 = self.entries@;
                let e1 = r.entries@;
                if exists|j: int| 0 <= j < e0.len() && (#[trigger] e0[j]).0@ == k {
                    let j0 = choose|j: int| 0 <= j < e0.len() && (#[trigger] e0[j]).0@ == k;
                    assert(e1[j0].0@ == k);
                    let j1 = choose|j: int| 0 <= j < e1.len() && (#[trigger] e1[j]).0@ == k;
                    assert(e0[j1].0@ == k);
                    assert(j0 == j1) by {
                        if j0 != j1 {
                            assert(e0[j0].0@ != e0[j1].0@);
                        }
                    }
                } else {
                    assert forall|j: int| 0 <= j < e1.len() implies (#[trigger] e1[j]).0@ != k by {
                        assert(e0[j].0@ == e1[j].0@);
                    }
                }
            }
        }
        r
    }
}
} // verus!
