//! The store's engine: what each write appends to the index log and the
//! data log, and how the in-memory index is rebuilt from the index log.
//!
//! The engine holds no file. Its caller appends the lines that a write
//! plans, reads back the line at an offset, and hands the engine the index
//! log's bytes and the data log's length when the store is opened.
use vstd::prelude::*;
use vstd::slice::{slice_subrange, slice_to_vec};

use crate::codec::{
    decode_key_offset, encode_key_offset, encode_key_val, find_byte, kv_line,
    ko_line, lemma_ko_line_injective, lemma_ko_line_shape,
};
use crate::index::Index;
use crate::{DbError, KeyOffset, KeyVal};

verus! {

/// `log` begins with the index line of `k` and `o`.
pub open spec fn starts_with_entry(log: Seq<u8>, k: Seq<u8>, o: u64) -> bool {
    ko_line(k, o).len() <= log.len() && log.take(ko_line(k, o).len() as int) == ko_line(k, o)
}

/// Replays the index lines of `log`, in order, into `m`: each entry
/// overwrites what `m` held for its key. `None` where `log` is not a
/// sequence of whole, well-formed index lines.
pub open spec fn replay_into(m: Map<Seq<u8>, u64>, log: Seq<u8>) -> Option<Map<Seq<u8>, u64>>
    decreases log.len(),
{
    if log.len() == 0 {
        Some(m)
    } else if exists|k: Seq<u8>, o: u64| starts_with_entry(log, k, o) {
        let (k, o) = choose|k: Seq<u8>, o: u64| starts_with_entry(log, k, o);
        if ko_line(k, o).len() > 0 {
            replay_into(m.insert(k, o), log.skip(ko_line(k, o).len() as int))
        } else {
            None
        }
    } else {
        None
    }
}

/// The index that the index log `log` stands for, replayed into an empty one.
pub open spec fn replay(log: Seq<u8>) -> Option<Map<Seq<u8>, u64>> {
    replay_into(Map::empty(), log)
}

/// At most one index line begins a log.
pub proof fn lemma_entry_unique(log: Seq<u8>, k1: Seq<u8>, o1: u64, k2: Seq<u8>, o2: u64)
    requires
        starts_with_entry(log, k1, o1),
        starts_with_entry(log, k2, o2),
    ensures
        k1 == k2,
        o1 == o2,
{
    let l1 = ko_line(k1, o1);
    let l2 = ko_line(k2, o2);
    lemma_ko_line_shape(k1, o1);
    lemma_ko_line_shape(k2, o2);
    assert(l1.len() > 0 && l2.len() > 0) by {
        assert(l1.last() == 10);
        assert(l2.last() == 10);
    }
    if l1.len() < l2.len() {
        assert(log[l1.len() - 1] == l1[l1.len() - 1]);
        assert(log[l1.len() - 1] == l2[l1.len() - 1]);
        assert(l2.drop_last()[l1.len() - 1] == l2[l1.len() - 1]);
    } else if l2.len() < l1.len() {
        assert(log[l2.len() - 1] == l2[l2.len() - 1]);
        assert(log[l2.len() - 1] == l1[l2.len() - 1]);
        assert(l1.drop_last()[l2.len() - 1] == l1[l2.len() - 1]);
    }
    assert(l1 =~= l2);
    lemma_ko_line_injective(k1, o1, k2, o2);
}

/// What one write appends: first `index_line` to the index log, then
/// `data_line` to the data log, where it begins at `offset`.
pub struct PutPlan {
    pub index_line: Vec<u8>,
    pub offset: u64,
    pub data_line: Vec<u8>,
}

/// The engine of an open store: its index and where the next record goes.
pub struct Store {
    index: Index,
    next_offset: u64,
}

impl Store {
    pub closed spec fn wf(&self) -> bool {
        self.index.wf()
    }

    /// The index: each key written, with the offset of its latest record.
    pub closed spec fn view(&self) -> Map<Seq<u8>, u64> {
        self.index@
    }

    /// The data log's length: where the next record begins.
    pub closed spec fn spec_next_offset(&self) -> u64 {
        self.next_offset
    }

    /// A store over empty logs.
    pub fn new() -> (r: Store)
        ensures
            r.wf(),
            r@ == Map::<Seq<u8>, u64>::empty(),
            r.spec_next_offset() == 0,
    {
        Store { index: Index::new(), next_offset: 0 }
    }

    /// Rebuilds the engine of a store whose index log holds `index_log` and
    /// whose data log is `data_len` bytes long.
    ///
    /// Fails with `Decode` exactly when the index log is not a sequence of
    /// whole, well-formed index lines.
    pub fn recover(index_log: &[u8], data_len: u64) -> (r: Result<Store, DbError>)
        ensures
            match r {
                Ok(s) => s.wf() && replay(index_log@) == Some(s@) && s.spec_next_offset()
                    == data_len,
                Err(e) => e == DbError::Decode && replay(index_log@) is None,
            },
    {
        let mut index = Index::new();
        let mut start: usize = 0;
        assert(index_log@.skip(0) =~= index_log@);
        while start < index_log.len()
            invariant
                start <= index_log@.len(),
                index.wf(),
                replay(index_log@) == replay_into(index@, index_log@.skip(start as int)),
            decreases index_log@.len() - start,
        {
            let ghost rest = index_log@.skip(start as int);
            let end = match find_byte(index_log, start, 10) {
                Some(nl) => nl + 1,
                None => {
                    proof {
                        assert forall|k: Seq<u8>, o: u64| !starts_with_entry(rest, k, o) by {
                            if starts_with_entry(rest, k, o) {
                                lemma_ko_line_shape(k, o);
                                let l = ko_line(k, o);
                                assert(rest[l.len() - 1] == l[l.len() - 1]);
                                assert(index_log@[start + l.len() - 1] == rest[l.len() - 1]);
                            }
                        }
                    }
                    return Err(DbError::Decode);
                },
            };
            let line = slice_subrange(index_log, start, end);
            match decode_key_offset(line) {
                Ok(ko) => {
                    proof {
                        let l = ko_line(ko.key@, ko.offset);
                        assert(rest.take(l.len() as int) =~= l);
                        assert(starts_with_entry(rest, ko.key@, ko.offset));
                        let (k, o) = choose|k: Seq<u8>, o: u64| starts_with_entry(rest, k, o);
                        lemma_entry_unique(rest, k, o, ko.key@, ko.offset);
                        assert(rest.skip(l.len() as int) =~= index_log@.skip(end as int));
                    }
                    let KeyOffset { key, offset } = ko;
                    index.upsert(key, offset);
                    start = end;
                },
                Err(_) => {
                    proof {
                        assert forall|k: Seq<u8>, o: u64| !starts_with_entry(rest, k, o) by {
                            if starts_with_entry(rest, k, o) {
                                lemma_ko_line_shape(k, o);
                                let l = ko_line(k, o);
                                let n = (end - start) as int;
                                if l.len() < n {
                                    assert(rest[l.len() - 1] == l[l.len() - 1]);
                                    assert(index_log@[start + l.len() - 1] == rest[l.len() - 1]);
                                } else if l.len() > n {
                                    assert(rest[n - 1] == l[n - 1]);
                                    assert(l.drop_last()[n - 1] == l[n - 1]);
                                }
                                assert(line@ =~= l);
                            }
                        }
                    }
                    return Err(DbError::Decode);
                },
            }
        }
        proof {
            assert(index_log@.skip(start as int) =~= Seq::<u8>::empty());
        }
        Ok(Store { index, next_offset: data_len })
    }

    /// Where the next record will begin.
    pub fn next_offset(&self) -> (r: u64)
        ensures
            r == self.spec_next_offset(),
    {
        self.next_offset
    }

    /// The lines that writing `val` under `key` appends, and where the
    /// record will begin.
    ///
    /// Fails with `Encode` exactly when the data log would then outgrow a
    /// `u64` offset.
    pub fn plan_put(&self, key: &[u8], val: &[u8]) -> (r: Result<PutPlan, DbError>)
        ensures
            match r {
                Ok(p) => {
                    &&& p.offset == self.spec_next_offset()
                    &&& p.index_line@ == ko_line(key@, self.spec_next_offset())
                    &&& p.data_line@ == kv_line(key@, val@)
                    &&& self.spec_next_offset() + kv_line(key@, val@).len() <= u64::MAX
                },
                Err(e) => e == DbError::Encode && self.spec_next_offset() + kv_line(
                    key@,
                    val@,
                ).len() > u64::MAX,
            },
    {
        let kv = KeyVal { key: slice_to_vec(key), val: slice_to_vec(val) };
        let data_line = encode_key_val(&kv);
        if data_line.len() as u64 > u64::MAX - self.next_offset {
            return Err(DbError::Encode);
        }
        let ko = KeyOffset { key: kv.key, offset: self.next_offset };
        let index_line = encode_key_offset(&ko);
        Ok(PutPlan { index_line, offset: self.next_offset, data_line })
    }

    /// Takes note of a planned write: once its index line is in the index
    /// log, `key` maps to the planned offset, and the data log grows by the
    /// planned record.
    pub fn commit_put(&mut self, key: Vec<u8>, plan: &PutPlan)
        requires
            old(self).wf(),
            plan.offset == old(self).spec_next_offset(),
            old(self).spec_next_offset() + plan.data_line@.len() <= u64::MAX,
        ensures
            final(self).wf(),
            final(self)@ == old(self)@.insert(key@, plan.offset),
            final(self).spec_next_offset() == old(self).spec_next_offset() + plan.data_line@.len(),
    {
        self.index.upsert(key, plan.offset);
        self.next_offset = self.next_offset + plan.data_line.len() as u64;
    }

    /// Where the latest record of `key` begins.
    ///
    /// Fails with `NotFound` exactly when `key` was never written.
    pub fn lookup(&self, key: &[u8]) -> (r: Result<u64, DbError>)
        requires
            self.wf(),
        ensures
            match r {
                Ok(o) => self@.contains_key(key@) && self@[key@] == o,
                Err(e) => e == DbError::NotFound && !self@.contains_key(key@),
            },
    {
        match self.index.lookup(key) {
            Some(o) => Ok(o),
            None => Err(DbError::NotFound),
        }
    }
}

} // verus!
