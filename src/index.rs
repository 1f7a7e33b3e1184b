//! The in-memory index: from each key to the data-log offset of its latest
//! record.
use vstd::prelude::*;

use crate::codec::bytes_eq;

verus! {

/// The map that results from writing the pairs in order, a later pair for a
/// key overriding an earlier one.
pub open spec fn pairs_map(s: Seq<(Seq<u8>, u64)>) -> Map<Seq<u8>, u64>
    decreases s.len(),
{
    if s.len() == 0 {
        Map::empty()
    } else {
        pairs_map(s.drop_last()).insert(s.last().0, s.last().1)
    }
}

pub open spec fn keys_unique(s: Seq<(Seq<u8>, u64)>) -> bool {
    forall|i: int, j: int| 0 <= i < j < s.len() ==> (#[trigger] s[i]).0 != (#[trigger] s[j]).0
}

proof fn lemma_pairs_map_has(s: Seq<(Seq<u8>, u64)>, i: int)
    requires
        keys_unique(s),
        0 <= i < s.len(),
    ensures
        pairs_map(s).contains_key(s[i].0),
        pairs_map(s)[s[i].0] == s[i].1,
    decreases s.len(),
{
    if i < s.len() - 1 {
        let p = s.drop_last();
        assert(p[i] == s[i]);
        assert(keys_unique(p)) by {
            assert forall|a: int, b: int| 0 <= a < b < p.len() implies (#[trigger] p[a]).0
                != (#[trigger] p[b]).0 by {
                assert(p[a] == s[a] && p[b] == s[b]);
            }
        }
        lemma_pairs_map_has(p, i);
        assert(s[i].0 != s[s.len() - 1].0);
    }
}

proof fn lemma_pairs_map_lacks(s: Seq<(Seq<u8>, u64)>, k: Seq<u8>)
    requires
        forall|i: int| 0 <= i < s.len() ==> (#[trigger] s[i]).0 != k,
    ensures
        !pairs_map(s).contains_key(k),
    decreases s.len(),
{
    if s.len() > 0 {
        let p = s.drop_last();
        assert forall|i: int| 0 <= i < p.len() implies (#[trigger] p[i]).0 != k by {
            assert(p[i] == s[i]);
        }
        lemma_pairs_map_lacks(p, k);
        assert(s[s.len() - 1].0 != k);
    }
}

proof fn lemma_pairs_map_update(s: Seq<(Seq<u8>, u64)>, i: int, o: u64)
    requires
        keys_unique(s),
        0 <= i < s.len(),
    ensures
        pairs_map(s.update(i, (s[i].0, o))) == pairs_map(s).insert(s[i].0, o),
    decreases s.len(),
{
    let t = s.update(i, (s[i].0, o));
    let p = s.drop_last();
    if i == s.len() - 1 {
        assert(t.drop_last() =~= p);
        assert(pairs_map(t) =~= pairs_map(s).insert(s[i].0, o));
    } else {
        assert(t.drop_last() =~= p.update(i, (p[i].0, o)));
        assert(keys_unique(p)) by {
            assert forall|a: int, b: int| 0 <= a < b < p.len() implies (#[trigger] p[a]).0
                != (#[trigger] p[b]).0 by {
                assert(p[a] == s[a] && p[b] == s[b]);
            }
        }
        lemma_pairs_map_update(p, i, o);
        assert(s[i].0 != s[s.len() - 1].0);
        assert(t.last() == s.last());
        assert(pairs_map(t) =~= pairs_map(s).insert(s[i].0, o));
    }
}

/// Keys and their offsets, held in two vectors of one length, each key once.
pub struct Index {
    keys: Vec<Vec<u8>>,
    offsets: Vec<u64>,
}

impl Index {
    pub closed spec fn pairs(&self) -> Seq<(Seq<u8>, u64)> {
        Seq::new(self.keys@.len(), |i: int| (self.keys@[i]@, self.offsets@[i]))
    }

    pub closed spec fn wf(&self) -> bool {
        &&& self.keys@.len() == self.offsets@.len()
        &&& keys_unique(self.pairs())
    }

    /// The key-to-offset map that the index stands for.
    pub closed spec fn view(&self) -> Map<Seq<u8>, u64> {
        pairs_map(self.pairs())
    }

    pub fn new() -> (r: Index)
        ensures
            r.wf(),
            r@ == Map::<Seq<u8>, u64>::empty(),
    {
        let r = Index { keys: Vec::new(), offsets: Vec::new() };
        assert(r.pairs() =~= Seq::<(Seq<u8>, u64)>::empty());
        r
    }

    fn position(&self, key: &[u8]) -> (r: Option<usize>)
        requires
            self.wf(),
        ensures
            match r {
                Some(i) => i < self.keys@.len() && self.pairs()[i as int].0 == key@,
                None => forall|i: int| 0 <= i < self.pairs().len() ==> (#[trigger] self.pairs()[i]).0 != key@,
            },
    {
        let mut i: usize = 0;
        while i < self.keys.len()
            invariant
                self.wf(),
                i <= self.keys@.len(),
                forall|j: int| 0 <= j < i ==> (#[trigger] self.pairs()[j]).0 != key@,
            decreases self.keys@.len() - i,
        {
            if bytes_eq(self.keys[i].as_slice(), key) {
                return Some(i);
            }
            i = i + 1;
        }
        None
    }

    /// The offset stored for `key`, if any.
    pub fn lookup(&self, key: &[u8]) -> (r: Option<u64>)
        requires
            self.wf(),
        ensures
            match r {
                Some(o) => self@.contains_key(key@) && self@[key@] == o,
                None => !self@.contains_key(key@),
            },
    {
        match self.position(key) {
            Some(i) => {
                proof {
                    lemma_pairs_map_has(self.pairs(), i as int);
                }
                Some(self.offsets[i])
            },
            None => {
                proof {
                    lemma_pairs_map_lacks(self.pairs(), key@);
                }
                None
            },
        }
    }

    /// Sets the offset of `key`, replacing any earlier one.
    pub fn upsert(&mut self, key: Vec<u8>, offset: u64)
        requires
            old(self).wf(),
        ensures
            final(self).wf(),
            final(self)@ == old(self)@.insert(key@, offset),
    {
        match self.position(key.as_slice()) {
            Some(i) => {
                let ghost before = self.pairs();
                self.offsets.set(i, offset);
                proof {
                    assert(self.pairs() =~= before.update(i as int, (before[i as int].0, offset)));
                    lemma_pairs_map_update(before, i as int, offset);
                }
            },
            None => {
                let ghost before = self.pairs();
                let ghost k = key@;
                self.keys.push(key);
                self.offsets.push(offset);
                proof {
                    assert(self.pairs() =~= before.push((k, offset)));
                    assert(self.pairs().drop_last() =~= before);
                    assert(keys_unique(self.pairs())) by {
                        let s = self.pairs();
                        assert forall|a: int, b: int| 0 <= a < b < s.len() implies (#[trigger] s[a]).0
                            != (#[trigger] s[b]).0 by {
                            if b == s.len() - 1 {
                                assert(s[a] == before[a]);
                            } else {
                                assert(s[a] == before[a] && s[b] == before[b]);
                            }
                        }
                    }
                }
            },
        }
    }
}

} // verus!
