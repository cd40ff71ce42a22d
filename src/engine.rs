//! An in-memory byte-string key-value engine with atomic batched writes.

use crate::bytes::bytes_eq;
use vstd::prelude::*;

verus! {

/// What a map holds under a key, if anything.
pub open spec fn lookup(m: Map<Seq<u8>, Seq<u8>>, k: Seq<u8>) -> Option<Seq<u8>> {
    if m.contains_key(k) {
        Some(m[k])
    } else {
        None
    }
}

pub open spec fn puts_view(puts: Seq<(Vec<u8>, Vec<u8>)>) -> Seq<(Seq<u8>, Seq<u8>)> {
    puts.map_values(|p: (Vec<u8>, Vec<u8>)| (p.0@, p.1@))
}

/// The map after the puts, applied in order (a later put of a key wins).
pub open spec fn apply_puts(m: Map<Seq<u8>, Seq<u8>>, puts: Seq<(Seq<u8>, Seq<u8>)>) -> Map<
    Seq<u8>,
    Seq<u8>,
>
    decreases puts.len(),
{
    if puts.len() == 0 {
        m
    } else {
        apply_puts(m, puts.drop_last()).insert(puts.last().0, puts.last().1)
    }
}

/// A put that no later put of the same key overrides is visible after the
/// batch; a key that no put names keeps what it held.
pub proof fn lemma_apply_puts(m: Map<Seq<u8>, Seq<u8>>, puts: Seq<(Seq<u8>, Seq<u8>)>, k: Seq<u8>)
    ensures
        (forall|j: int| 0 <= j < puts.len() ==> puts[j].0 != k) ==> lookup(apply_puts(m, puts), k)
            == lookup(m, k),
        forall|i: int|
            0 <= i < puts.len() && puts[i].0 == k && (forall|j: int|
                i < j < puts.len() ==> puts[j].0 != k) ==> lookup(apply_puts(m, puts), k) == Some(
                puts[i].1,
            ),
    decreases puts.len(),
{
    if puts.len() > 0 {
        let p = puts.drop_last();
        lemma_apply_puts(m, p, k);
        assert forall|i: int|
            0 <= i < puts.len() && puts[i].0 == k && (forall|j: int|
                i < j < puts.len() ==> puts[j].0 != k) implies lookup(apply_puts(m, puts), k)
            == Some(puts[i].1) by {
            if i < puts.len() - 1 {
                assert(puts[puts.len() - 1].0 != k);
                assert(p[i] == puts[i]);
                assert(forall|j: int| i < j < p.len() ==> p[j] == puts[j]);
            }
        }
        if forall|j: int| 0 <= j < puts.len() ==> puts[j].0 != k {
            assert(forall|j: int| 0 <= j < p.len() ==> p[j] == puts[j]);
            assert(puts[puts.len() - 1].0 != k);
        }
    }
}

/// A byte-string map held as a vector of entries with distinct keys.
pub struct MemEngine {
    entries: Vec<(Vec<u8>, Vec<u8>)>,
    model: Ghost<Map<Seq<u8>, Seq<u8>>>,
}

impl View for MemEngine {
    type V = Map<Seq<u8>, Seq<u8>>;

    closed spec fn view(&self) -> Map<Seq<u8>, Seq<u8>> {
        self.model@
    }
}

impl MemEngine {
    /// The entries hold each key of the model once, with its value.
    pub closed spec fn wf(&self) -> bool {
        &&& forall|i: int, j: int|
            0 <= i < j < self.entries@.len() ==> self.entries@[i].0@ != self.entries@[j].0@
        &&& forall|i: int|
            0 <= i < self.entries@.len() ==> self.model@.contains_key(
                #[trigger] self.entries@[i].0@,
            ) && self.model@[self.entries@[i].0@] == self.entries@[i].1@
        &&& forall|k: Seq<u8>|
            self.model@.contains_key(k) ==> exists|i: int|
                0 <= i < self.entries@.len() && #[trigger] self.entries@[i].0@ == k
    }

    pub fn new() -> (r: Self)
        ensures
            r.wf(),
            r@ == Map::<Seq<u8>, Seq<u8>>::empty(),
    {
        MemEngine { entries: Vec::new(), model: Ghost(Map::empty()) }
    }

    fn find(&self, key: &Vec<u8>) -> (r: Option<usize>)
        requires
            self.wf(),
        ensures
            match r {
                Some(i) => i < self.entries@.len() && self.entries@[i as int].0@ == key@,
                None => !self@.contains_key(key@),
            },
    {
        let mut i: usize = 0;
        while i < self.entries.len()
            invariant
                self.wf(),
                i <= self.entries@.len(),
                forall|j: int| 0 <= j < i ==> self.entries@[j].0@ != key@,
            decreases self.entries@.len() - i,
        {
            if bytes_eq(&self.entries[i].0, key) {
                return Some(i);
            }
            i += 1;
        }
        None
    }

    /// The value stored under `key`.
    pub fn get(&self, key: &Vec<u8>) -> (r: Option<Vec<u8>>)
        requires
            self.wf(),
        ensures
            match r {
                Some(v) => lookup(self@, key@) == Some(v@),
                None => lookup(self@, key@) is None,
            },
    {
        match self.find(key) {
            Some(i) => Some(self.entries[i].1.clone()),
            None => None,
        }
    }

    fn put(&mut self, key: Vec<u8>, value: Vec<u8>)
        requires
            old(self).wf(),
        ensures
            final(self).wf(),
            final(self)@ == old(self)@.insert(key@, value@),
    {
        let ghost k = key@;
        let ghost v = value@;
        match self.find(&key) {
            Some(i) => {
                self.entries.set(i, (key, value));
                self.model = Ghost(self.model@.insert(k, v));
                proof {
                    assert forall|kk: Seq<u8>| self.model@.contains_key(kk) implies exists|j: int|
                        0 <= j < self.entries@.len() && #[trigger] self.entries@[j].0@ == kk by {
                        if kk != k {
                            let j = choose|j: int|
                                0 <= j < self.entries@.len() && #[trigger] old(self).entries@[j].0@
                                    == kk;
                            assert(self.entries@[j] == old(self).entries@[j]);
                        } else {
                            assert(self.entries@[i as int].0@ == kk);
                        }
                    }
                }
            },
            None => {
                self.entries.push((key, value));
                self.model = Ghost(self.model@.insert(k, v));
                proof {
                    let n = old(self).entries@.len();
                    assert forall|kk: Seq<u8>| self.model@.contains_key(kk) implies exists|j: int|
                        0 <= j < self.entries@.len() && #[trigger] self.entries@[j].0@ == kk by {
                        if kk != k {
                            let j = choose|j: int|
                                0 <= j < old(self).entries@.len() && #[trigger] old(
                                    self,
                                ).entries@[j].0@ == kk;
                            assert(self.entries@[j] == old(self).entries@[j]);
                        } else {
                            assert(self.entries@[n as int].0@ == kk);
                        }
                    }
                    assert forall|a: int, b: int|
                        0 <= a < b < self.entries@.len() implies self.entries@[a].0@
                        != self.entries@[b].0@ by {
                        if b == n {
                            assert(old(self).model@.contains_key(old(self).entries@[a].0@));
                        }
                    }
                }
            },
        }
    }

    /// Applies all the puts, in order, as one write.
    pub fn write_batch(&mut self, puts: Vec<(Vec<u8>, Vec<u8>)>)
        requires
            old(self).wf(),
        ensures
            final(self).wf(),
            final(self)@ == apply_puts(old(self)@, puts_view(puts@)),
    {
        let ghost start = self@;
        let mut i: usize = 0;
        while i < puts.len()
            invariant
                self.wf(),
                i <= puts@.len(),
                self@ == apply_puts(start, puts_view(puts@).subrange(0, i as int)),
            decreases puts@.len() - i,
        {
            let k = puts[i].0.clone();
            let v = puts[i].1.clone();
            self.put(k, v);
            i += 1;
            proof {
                let s = puts_view(puts@).subrange(0, i as int);
                assert(s.drop_last() =~= puts_view(puts@).subrange(0, i - 1));
            }
        }
        proof {
            assert(puts_view(puts@).subrange(0, puts@.len() as int) =~= puts_view(puts@));
        }
    }

    /// A copy of every entry, each key once.
    pub fn entries(&self) -> (r: Vec<(Vec<u8>, Vec<u8>)>)
        requires
            self.wf(),
        ensures
            forall|i: int|
                0 <= i < r@.len() ==> lookup(self@, #[trigger] r@[i].0@) == Some(r@[i].1@),
            forall|k: Seq<u8>|
                self@.contains_key(k) ==> exists|i: int| 0 <= i < r@.len() && #[trigger] r@[i].0@ == k,
    {
        let mut out: Vec<(Vec<u8>, Vec<u8>)> = Vec::new();
        let mut i: usize = 0;
        while i < self.entries.len()
            invariant
                self.wf(),
                i <= self.entries@.len(),
                out@.len() == i,
                forall|j: int|
                    0 <= j < i ==> #[trigger] out@[j].0@ == self.entries@[j].0@ && out@[j].1@
                        == self.entries@[j].1@,
            decreases self.entries@.len() - i,
        {
            let k = self.entries[i].0.clone();
            let v = self.entries[i].1.clone();
            let ghost prev = out@;
            out.push((k, v));
            i += 1;
            proof {
                assert(forall|j: int| 0 <= j < i - 1 ==> out@[j] == prev[j]);
                assert(out@[i - 1].0@ == self.entries@[i - 1].0@);
            }
        }
        proof {
            assert forall|k: Seq<u8>| self@.contains_key(k) implies exists|j: int|
                0 <= j < out@.len() && #[trigger] out@[j].0@ == k by {
                let j = choose|j: int| 0 <= j < self.entries@.len() && #[trigger] self.entries@[j].0@ == k;
                assert(out@[j].0@ == k);
            }
            assert forall|j: int| 0 <= j < out@.len() implies lookup(self@, #[trigger] out@[j].0@) == Some(out@[j].1@) by {
                assert(self.model@.contains_key(self.entries@[j].0@));
            }
        }
        out
    }
}

} // verus!
