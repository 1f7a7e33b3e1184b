//! What holds of the store across several writes, stated over a model of
//! its three parts: the index, the data log and the index log.
use vstd::prelude::*;

use crate::codec::{
    kv_line, ko_line, lemma_kv_line_injective, lemma_kv_line_shape, lemma_ko_line_shape,
    no_line_feed,
};
use crate::store::{lemma_entry_unique, replay, replay_into, starts_with_entry};

verus! {

/// The index, the data log and the index log of a store.
pub type Logs = (Map<Seq<u8>, u64>, Seq<u8>, Seq<u8>);

/// The data log holds the line `l` at `off`, and a reader that takes the
/// bytes from `off` through the first line feed gets exactly `l`.
pub open spec fn line_at(data: Seq<u8>, off: int, l: Seq<u8>) -> bool {
    &&& 0 <= off
    &&& off + l.len() <= data.len()
    &&& data.subrange(off, off + l.len()) == l
    &&& l.len() > 0
    &&& l.last() == 10
    &&& no_line_feed(l.drop_last())
}

/// Every key of the index leads to a whole record of that key.
pub open spec fn records_reachable(s: Logs) -> bool {
    forall|k: Seq<u8>|
        #![trigger s.0[k]]
        s.0.contains_key(k) ==> exists|v: Seq<u8>| line_at(s.1, s.0[k] as int, kv_line(k, v))
}

/// One write of `v` under `k`: an index line with the data log's length,
/// the index updated to it, and the record appended to the data log.
pub open spec fn put_model(s: Logs, k: Seq<u8>, v: Seq<u8>) -> Logs {
    (s.0.insert(k, s.1.len() as u64), s.1 + kv_line(k, v), s.2 + ko_line(k, s.1.len() as u64))
}

/// The writes of `ops`, in order.
pub open spec fn puts_model(s: Logs, ops: Seq<(Seq<u8>, Seq<u8>)>) -> Logs
    decreases ops.len(),
{
    if ops.len() == 0 {
        s
    } else {
        put_model(puts_model(s, ops.drop_last()), ops.last().0, ops.last().1)
    }
}

/// The value of the last write under `k` in `ops`, if any.
pub open spec fn last_value(ops: Seq<(Seq<u8>, Seq<u8>)>, k: Seq<u8>) -> Option<Seq<u8>>
    decreases ops.len(),
{
    if ops.len() == 0 {
        None
    } else if ops.last().0 == k {
        Some(ops.last().1)
    } else {
        last_value(ops.drop_last(), k)
    }
}

/// Appending to the data log keeps every line that it held.
pub proof fn lemma_line_kept(data: Seq<u8>, off: int, l: Seq<u8>, more: Seq<u8>)
    requires
        line_at(data, off, l),
    ensures
        line_at(data + more, off, l),
{
    assert((data + more).subrange(off, off + l.len()) =~= data.subrange(off, off + l.len()));
}

/// A write followed by a read of the same key gives back the value
/// written: the key leads to the new record, and that record decodes to
/// nothing but this key and value.
pub proof fn lemma_put_then_get(s: Logs, k: Seq<u8>, v: Seq<u8>)
    requires
        s.1.len() + kv_line(k, v).len() <= u64::MAX,
    ensures
        ({
            let t = put_model(s, k, v);
            &&& t.0.contains_key(k)
            &&& t.0[k] == s.1.len()
            &&& line_at(t.1, t.0[k] as int, kv_line(k, v))
            &&& forall|k2: Seq<u8>, v2: Seq<u8>|
                kv_line(k2, v2) == kv_line(k, v) ==> k2 == k && v2 == v
        }),
{
    let t = put_model(s, k, v);
    let l = kv_line(k, v);
    lemma_kv_line_shape(k, v);
    assert(t.1.subrange(s.1.len() as int, s.1.len() + l.len() as int) =~= l);
    assert forall|k2: Seq<u8>, v2: Seq<u8>| kv_line(k2, v2) == l implies k2 == k && v2 == v by {
        lemma_kv_line_injective(k2, v2, k, v);
    }
}

/// The data log only grows under writes.
pub proof fn lemma_puts_grow(s: Logs, ops: Seq<(Seq<u8>, Seq<u8>)>)
    ensures
        puts_model(s, ops).1.len() >= s.1.len(),
        ops.len() > 0 ==> puts_model(s, ops.drop_last()).1.len() < puts_model(s, ops).1.len(),
    decreases ops.len(),
{
    if ops.len() > 0 {
        lemma_puts_grow(s, ops.drop_last());
        lemma_kv_line_shape(ops.last().0, ops.last().1);
    }
}

/// After any writes, each key leads to the record of its last write; a key
/// that no write names keeps what it had, and one never written stays
/// unknown.
pub proof fn lemma_last_write_wins(s: Logs, ops: Seq<(Seq<u8>, Seq<u8>)>, k: Seq<u8>)
    requires
        records_reachable(s),
        puts_model(s, ops).1.len() <= u64::MAX,
    ensures
        records_reachable(puts_model(s, ops)),
        match last_value(ops, k) {
            Some(v) => puts_model(s, ops).0.contains_key(k) && line_at(
                puts_model(s, ops).1,
                puts_model(s, ops).0[k] as int,
                kv_line(k, v),
            ),
            None => puts_model(s, ops).0.contains_key(k) == s.0.contains_key(k) && (
            s.0.contains_key(k) ==> puts_model(s, ops).0[k] == s.0[k]),
        },
    decreases ops.len(),
{
    if ops.len() > 0 {
        let p = ops.drop_last();
        let (k1, v1) = ops.last();
        let u = puts_model(s, p);
        let t = puts_model(s, ops);
        lemma_puts_grow(s, ops);
        lemma_last_write_wins(s, p, k);
        lemma_put_then_get(u, k1, v1);
        assert forall|k2: Seq<u8>| #[trigger] t.0.contains_key(k2) implies exists|v: Seq<u8>|
            line_at(t.1, t.0[k2] as int, kv_line(k2, v)) by {
            if k2 == k1 {
                assert(line_at(t.1, t.0[k2] as int, kv_line(k2, v1)));
            } else {
                assert(u.0.contains_key(k2));
                let v = choose|v: Seq<u8>| line_at(u.1, u.0[k2] as int, kv_line(k2, v));
                lemma_line_kept(u.1, u.0[k2] as int, kv_line(k2, v), kv_line(k1, v1));
                assert(line_at(t.1, t.0[k2] as int, kv_line(k2, v)));
            }
        }
        if k1 != k {
            match last_value(p, k) {
                Some(v) => {
                    lemma_line_kept(u.1, u.0[k] as int, kv_line(k, v), kv_line(k1, v1));
                },
                None => {},
            }
        }
    }
}

/// Each write puts its record past the end of every earlier one: the
/// offsets that successive writes are given strictly increase.
pub proof fn lemma_offsets_increase(s: Logs, ops: Seq<(Seq<u8>, Seq<u8>)>, i: int, j: int)
    requires
        0 <= i < j <= ops.len(),
    ensures
        puts_model(s, ops.take(i)).1.len() < puts_model(s, ops.take(j)).1.len(),
    decreases j - i,
{
    lemma_puts_grow(s, ops.take(j));
    assert(ops.take(j).drop_last() =~= ops.take(j - 1));
    assert(ops.take(j).len() > 0);
    assert(puts_model(s, ops.take(j - 1)).1.len() < puts_model(s, ops.take(j)).1.len());
    if i < j - 1 {
        lemma_offsets_increase(s, ops, i, j - 1);
    }
}

/// Replaying a log with one more index line at its end gives the map of
/// the shorter log with that entry written over it.
pub proof fn lemma_replay_append(m: Map<Seq<u8>, u64>, log: Seq<u8>, k: Seq<u8>, o: u64)
    requires
        replay_into(m, log) is Some,
    ensures
        replay_into(m, log + ko_line(k, o)) == Some(replay_into(m, log)->0.insert(k, o)),
    decreases log.len(),
{
    let l = ko_line(k, o);
    lemma_ko_line_shape(k, o);
    assert(l.len() > 0) by {
        assert(l.last() == 10);
    }
    if log.len() == 0 {
        assert(log + l =~= l);
        assert(starts_with_entry(l, k, o)) by {
            assert(l.take(l.len() as int) =~= l);
        }
        let (k1, o1) = choose|k1: Seq<u8>, o1: u64| starts_with_entry(l, k1, o1);
        lemma_entry_unique(l, k1, o1, k, o);
        assert(l.skip(l.len() as int) =~= Seq::<u8>::empty());
        assert(replay_into(m.insert(k, o), Seq::<u8>::empty()) == Some(m.insert(k, o)));
        assert(replay_into(m, l) == replay_into(m.insert(k, o), l.skip(l.len() as int)));
        assert(replay_into(m, log) == Some(m));
    } else {
        let (k1, o1) = choose|k1: Seq<u8>, o1: u64| starts_with_entry(log, k1, o1);
        let l1 = ko_line(k1, o1);
        let all = log + l;
        assert(starts_with_entry(all, k1, o1)) by {
            assert(all.take(l1.len() as int) =~= log.take(l1.len() as int));
        }
        let (k2, o2) = choose|k2: Seq<u8>, o2: u64| starts_with_entry(all, k2, o2);
        lemma_entry_unique(all, k2, o2, k1, o1);
        assert(all.skip(l1.len() as int) =~= log.skip(l1.len() as int) + l);
        assert(replay_into(m, log) == replay_into(m.insert(k1, o1), log.skip(l1.len() as int)));
        lemma_replay_append(m.insert(k1, o1), log.skip(l1.len() as int), k, o);
        assert(replay_into(m, all) == replay_into(m.insert(k1, o1), all.skip(l1.len() as int)));
    }
}

/// The index log that writes leave behind replays to the index that they
/// built: a store reopened after them finds each key where it was.
pub proof fn lemma_replay_after_puts(s: Logs, ops: Seq<(Seq<u8>, Seq<u8>)>)
    requires
        replay(s.2) == Some(s.0),
    ensures
        replay(puts_model(s, ops).2) == Some(puts_model(s, ops).0),
    decreases ops.len(),
{
    if ops.len() > 0 {
        let u = puts_model(s, ops.drop_last());
        lemma_replay_after_puts(s, ops.drop_last());
        lemma_replay_append(Map::empty(), u.2, ops.last().0, u.1.len() as u64);
    }
}

/// Two replays of one index log give the same map.
pub proof fn lemma_replay_twice(log: Seq<u8>, m1: Map<Seq<u8>, u64>, m2: Map<Seq<u8>, u64>)
    requires
        replay(log) == Some(m1),
        replay(log) == Some(m2),
    ensures
        m1 == m2,
{
}

} // verus!
