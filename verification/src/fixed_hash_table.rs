//! Fixed-capacity open-addressed hash table with linear probing, tombstones,
//! amortized rehash, and an auxiliary doubly-linked order list that records
//! the sequence of latest writes (head = oldest entry, tail = newest).
//!
//! The table is modelled by two abstractions: `self@`, the map from key views
//! to values, and `self.order()`, the sequence of key views ordered by their
//! latest insert or update. Every public operation states exactly how it
//! changes both.

use crate::doubly_linked_list::DoublyLinkedList;
use std::collections::hash_map::DefaultHasher;
use std::hash::{BuildHasher, Hasher, RandomState};
use vstd::pervasive::VecAdditionalExecFns;
use vstd::prelude::*;
use vstd::std_specs::hash::DefaultHasherAdditionalSpecFns;
use vstd::utf8::encode_utf8;

verus! {

/// One slot of the table: never occupied, occupied by a key with its value
/// and the handle of the key's node in the order list, or a tombstone left
/// behind by a deletion.
pub(crate) enum Slot<V> {
    Empty,
    Occupied(String, V, usize),
    Deleted,
}

/// Open-addressed `String -> V` map of fixed capacity with linear probing,
/// tombstones, and an order list over the live keys.
pub struct FixedHashTable<V> {
    table: Vec<Slot<V>>,
    scratch: Vec<Slot<V>>,
    history: DoublyLinkedList<String>,
    seed: u64,
    size: usize,
    count: usize,
    deleted_count: usize,
}

/// The bytes of the per-table seed, mixed into the hasher before the key.
pub(crate) open spec fn seed_bytes(seed: u64) -> Seq<u8> {
    seq![
        seed as u8,
        (seed >> 8u64) as u8,
        (seed >> 16u64) as u8,
        (seed >> 24u64) as u8,
        (seed >> 32u64) as u8,
        (seed >> 40u64) as u8,
        (seed >> 48u64) as u8,
        (seed >> 56u64) as u8,
    ]
}

/// The hash of a key under a seed: what the standard hasher returns after
/// being fed the seed bytes and then the key's UTF-8 bytes. A function of
/// the seed and the key view alone, so equal keys hash equal.
pub(crate) open spec fn spec_hash(seed: u64, k: Seq<char>) -> u64 {
    DefaultHasher::spec_finish(seq![seed_bytes(seed), encode_utf8(k)])
}

/// The home index of a key: its hash reduced modulo the table size.
pub(crate) open spec fn spec_home(seed: u64, size: int, k: Seq<char>) -> int {
    spec_hash(seed, k) as int % size
}

/// Forward probe distance from index `from` to index `to`, wrapping at `size`.
pub(crate) open spec fn dist(size: int, from: int, to: int) -> int {
    if to >= from {
        to - from
    } else {
        to - from + size
    }
}

/// The index reached after `d` forward probe steps from `from` (for d < size).
pub(crate) open spec fn pos(size: int, from: int, d: int) -> int {
    if from + d < size {
        from + d
    } else {
        from + d - size
    }
}

pub(crate) open spec fn skey<V>(s: Slot<V>) -> Seq<char> {
    match s {
        Slot::Occupied(k, _, _) => k@,
        _ => Seq::empty(),
    }
}

pub(crate) open spec fn sval<V>(s: Slot<V>) -> V {
    match s {
        Slot::Occupied(_, v, _) => v,
        _ => vstd::pervasive::arbitrary(),
    }
}

pub(crate) open spec fn shandle<V>(s: Slot<V>) -> usize {
    match s {
        Slot::Occupied(_, _, h) => h,
        _ => vstd::pervasive::arbitrary(),
    }
}

/// Number of occupied slots.
pub(crate) open spec fn num_occ<V>(t: Seq<Slot<V>>) -> int
    decreases t.len(),
{
    if t.len() == 0 {
        0
    } else {
        num_occ(t.drop_last()) + if t.last() is Occupied {
            1int
        } else {
            0int
        }
    }
}

/// Number of tombstones.
pub(crate) open spec fn num_del<V>(t: Seq<Slot<V>>) -> int
    decreases t.len(),
{
    if t.len() == 0 {
        0
    } else {
        num_del(t.drop_last()) + if t.last() is Deleted {
            1int
        } else {
            0int
        }
    }
}

/// The key/value/handle association held by a slot sequence; with distinct
/// keys, the order of the fold does not matter.
pub(crate) open spec fn slots_map<V>(t: Seq<Slot<V>>) -> Map<Seq<char>, (V, usize)>
    decreases t.len(),
{
    if t.len() == 0 {
        Map::empty()
    } else {
        match t.last() {
            Slot::Occupied(k, v, h) => slots_map(t.drop_last()).insert(k@, (v, h)),
            _ => slots_map(t.drop_last()),
        }
    }
}

/// No two occupied slots hold the same key.
pub(crate) open spec fn unique_keys<V>(t: Seq<Slot<V>>) -> bool {
    forall|i: int, j: int|
        0 <= i < t.len() && 0 <= j < t.len() && i != j && (#[trigger] t[i]) is Occupied && (
        #[trigger] t[j]) is Occupied ==> skey(t[i]) != skey(t[j])
}

/// Every occupied slot is reachable from its key's home index: no probe
/// position strictly before it on the walk is empty.
pub(crate) open spec fn reach_ok<V>(t: Seq<Slot<V>>, seed: u64) -> bool {
    forall|i: int, d: int|
        0 <= i < t.len() && (#[trigger] t[i]) is Occupied && 0 <= d < dist(
            t.len() as int,
            spec_home(seed, t.len() as int, skey(t[i])),
            i,
        ) ==> !((#[trigger] t[pos(t.len() as int, spec_home(seed, t.len() as int, skey(t[i])), d)])
            is Empty)
}

pub(crate) proof fn lemma_counts<V>(t: Seq<Slot<V>>)
    ensures
        0 <= num_occ(t),
        0 <= num_del(t),
        num_occ(t) + num_del(t) <= t.len(),
    decreases t.len(),
{
    if t.len() > 0 {
        lemma_counts(t.drop_last());
    }
}

/// A tombstone at any position implies at least one counted tombstone.
pub(crate) proof fn lemma_del_at<V>(t: Seq<Slot<V>>, i: int)
    requires
        0 <= i < t.len(),
        t[i] is Deleted,
    ensures
        num_del(t) >= 1,
    decreases t.len(),
{
    lemma_counts(t);
    if i == t.len() - 1 {
        lemma_counts(t.drop_last());
    } else {
        lemma_del_at(t.drop_last(), i);
    }
}

/// An occupied slot at any position implies at least one counted entry.
pub(crate) proof fn lemma_occ_at<V>(t: Seq<Slot<V>>, i: int)
    requires
        0 <= i < t.len(),
        t[i] is Occupied,
    ensures
        num_occ(t) >= 1,
    decreases t.len(),
{
    lemma_counts(t);
    if i == t.len() - 1 {
        lemma_counts(t.drop_last());
    } else {
        lemma_occ_at(t.drop_last(), i);
    }
}

/// A positive tombstone count implies a tombstone at some position.
pub(crate) proof fn lemma_del_exists<V>(t: Seq<Slot<V>>)
    requires
        num_del(t) > 0,
    ensures
        exists|x: int| 0 <= x < t.len() && (#[trigger] t[x]) is Deleted,
    decreases t.len(),
{
    if t.len() > 0 {
        if t.last() is Deleted {
            assert(t[t.len() - 1] is Deleted);
        } else {
            lemma_del_exists(t.drop_last());
            let x = choose|x: int|
                0 <= x < t.drop_last().len() && (#[trigger] t.drop_last()[x]) is Deleted;
            assert(t[x] is Deleted);
        }
    }
}

/// A slot sequence with only occupied slots has `num_occ` equal to its length.
pub(crate) proof fn lemma_all_occupied<V>(t: Seq<Slot<V>>)
    requires
        forall|i: int| 0 <= i < t.len() ==> (#[trigger] t[i]) is Occupied,
    ensures
        num_occ(t) == t.len(),
    decreases t.len(),
{
    if t.len() > 0 {
        assert(t.last() is Occupied);
        lemma_all_occupied(t.drop_last());
    }
}

/// A slot sequence of empty slots describes the empty map.
pub(crate) proof fn lemma_all_empty<V>(t: Seq<Slot<V>>)
    requires
        forall|i: int| 0 <= i < t.len() ==> (#[trigger] t[i]) is Empty,
    ensures
        num_occ(t) == 0,
        num_del(t) == 0,
        slots_map(t) == Map::<Seq<char>, (V, usize)>::empty(),
    decreases t.len(),
{
    if t.len() > 0 {
        assert(t.last() is Empty);
        lemma_all_empty(t.drop_last());
    }
}

/// Characterization of `slots_map` for a slot sequence with distinct keys:
/// its domain is exactly the keys of the occupied slots, each key maps to
/// that slot's value and handle, the domain is finite and its cardinality is
/// the number of occupied slots.
pub(crate) proof fn lemma_sm<V>(t: Seq<Slot<V>>)
    requires
        unique_keys(t),
    ensures
        forall|k: Seq<char>|
            #[trigger] slots_map(t).contains_key(k) <==> exists|i: int|
                0 <= i < t.len() && (#[trigger] t[i]) is Occupied && skey(t[i]) == k,
        forall|i: int|
            0 <= i < t.len() && (#[trigger] t[i]) is Occupied ==> slots_map(t).contains_key(
                skey(t[i]),
            ) && slots_map(t)[skey(t[i])] == (sval(t[i]), shandle(t[i])),
        slots_map(t).dom().finite(),
        slots_map(t).dom().len() == num_occ(t),
    decreases t.len(),
{
    if t.len() == 0 {
    } else {
        let t0 = t.drop_last();
        assert(unique_keys(t0)) by {
            assert(forall|i: int| 0 <= i < t0.len() ==> t0[i] == t[i]);
        }
        lemma_sm(t0);
        let last = t.last();
        assert(forall|i: int| 0 <= i < t0.len() ==> t0[i] == t[i]);
        if last is Occupied {
            assert(t[t.len() - 1] is Occupied);
            assert(!slots_map(t0).contains_key(skey(last))) by {
                if slots_map(t0).contains_key(skey(last)) {
                    let i = choose|i: int|
                        0 <= i < t0.len() && (#[trigger] t0[i]) is Occupied && skey(t0[i]) == skey(
                            last,
                        );
                    assert(t[i] is Occupied && skey(t[i]) == skey(t[t.len() - 1]));
                }
            }
            assert forall|k: Seq<char>| #[trigger]
                slots_map(t).contains_key(k) implies exists|i: int|
                0 <= i < t.len() && (#[trigger] t[i]) is Occupied && skey(t[i]) == k by {
                if k == skey(last) {
                    assert(t[t.len() - 1] is Occupied && skey(t[t.len() - 1]) == k);
                } else {
                    let i = choose|i: int|
                        0 <= i < t0.len() && (#[trigger] t0[i]) is Occupied && skey(t0[i]) == k;
                    assert(t[i] is Occupied && skey(t[i]) == k);
                }
            }
            assert forall|k: Seq<char>|
                (exists|i: int|
                    0 <= i < t.len() && (#[trigger] t[i]) is Occupied && skey(t[i])
                        == k) implies #[trigger] slots_map(t).contains_key(k) by {
                let i = choose|i: int|
                    0 <= i < t.len() && (#[trigger] t[i]) is Occupied && skey(t[i]) == k;
                if i < t.len() - 1 {
                    assert(t0[i] is Occupied && skey(t0[i]) == k);
                }
            }
        } else {
            assert forall|k: Seq<char>|
                (exists|i: int|
                    0 <= i < t.len() && (#[trigger] t[i]) is Occupied && skey(t[i])
                        == k) implies #[trigger] slots_map(t).contains_key(k) by {
                let i = choose|i: int|
                    0 <= i < t.len() && (#[trigger] t[i]) is Occupied && skey(t[i]) == k;
                assert(i < t.len() - 1);
                assert(t0[i] is Occupied && skey(t0[i]) == k);
            }
        }
    }
}

/// Effect on the model of writing an occupied slot over an empty slot or a
/// tombstone, for a key held nowhere else in the sequence.
pub(crate) proof fn lemma_sm_place<V>(t: Seq<Slot<V>>, i: int, k: String, v: V, h: usize)
    requires
        0 <= i < t.len(),
        !(t[i] is Occupied),
        unique_keys(t),
        !slots_map(t).contains_key(k@),
    ensures
        slots_map(t.update(i, Slot::Occupied(k, v, h))) == slots_map(t).insert(k@, (v, h)),
        num_occ(t.update(i, Slot::Occupied(k, v, h))) == num_occ(t) + 1,
        num_del(t.update(i, Slot::Occupied(k, v, h))) == num_del(t) - (if t[i] is Deleted {
            1int
        } else {
            0int
        }),
        unique_keys(t.update(i, Slot::Occupied(k, v, h))),
    decreases t.len(),
{
    lemma_sm(t);
    let t2 = t.update(i, Slot::Occupied(k, v, h));
    if i == t.len() - 1 {
        assert(t2.drop_last() =~= t.drop_last());
        assert(t2.last() == Slot::Occupied(k, v, h));
    } else {
        let t0 = t.drop_last();
        assert(unique_keys(t0)) by {
            assert(forall|p: int| 0 <= p < t0.len() ==> t0[p] == t[p]);
        }
        assert(!slots_map(t0).contains_key(k@)) by {
            lemma_sm(t0);
            if slots_map(t0).contains_key(k@) {
                let j = choose|j: int|
                    0 <= j < t0.len() && (#[trigger] t0[j]) is Occupied && skey(t0[j]) == k@;
                assert(t[j] is Occupied && skey(t[j]) == k@);
                lemma_sm(t);
            }
        }
        lemma_sm_place(t0, i, k, v, h);
        assert(t2.drop_last() =~= t0.update(i, Slot::Occupied(k, v, h)));
        assert(t2.last() == t.last());
        if t.last() is Occupied {
            let lk = skey(t.last());
            assert(slots_map(t2) =~= slots_map(t).insert(k@, (v, h))) by {
                assert(slots_map(t2) == slots_map(t0).insert(k@, (v, h)).insert(
                    lk,
                    (sval(t.last()), shandle(t.last())),
                ));
                assert(lk != k@) by {
                    assert(t[t.len() - 1] is Occupied);
                    lemma_sm(t);
                }
            }
        }
    }
    assert(unique_keys(t2)) by {
        assert forall|p: int, q: int|
            0 <= p < t2.len() && 0 <= q < t2.len() && p != q && (#[trigger] t2[p]) is Occupied && (
            #[trigger] t2[q]) is Occupied implies skey(t2[p]) != skey(t2[q]) by {
            if p != i && q != i {
                assert(t[p] is Occupied && t[q] is Occupied);
            } else if p == i {
                assert(t[q] is Occupied && skey(t2[q]) == skey(t[q]));
                lemma_sm(t);
            } else {
                assert(t[p] is Occupied && skey(t2[p]) == skey(t[p]));
                lemma_sm(t);
            }
        }
    }
}

/// Effect on the model of overwriting the occupied slot of key `k` with a new
/// value and handle for the same key.
pub(crate) proof fn lemma_sm_replace<V>(t: Seq<Slot<V>>, i: int, k: String, v: V, h: usize)
    requires
        0 <= i < t.len(),
        t[i] is Occupied,
        skey(t[i]) == k@,
        unique_keys(t),
    ensures
        slots_map(t.update(i, Slot::Occupied(k, v, h))) == slots_map(t).insert(k@, (v, h)),
        num_occ(t.update(i, Slot::Occupied(k, v, h))) == num_occ(t),
        num_del(t.update(i, Slot::Occupied(k, v, h))) == num_del(t),
        unique_keys(t.update(i, Slot::Occupied(k, v, h))),
    decreases t.len(),
{
    lemma_sm(t);
    let t2 = t.update(i, Slot::Occupied(k, v, h));
    if i == t.len() - 1 {
        assert(t2.drop_last() =~= t.drop_last());
        assert(!slots_map(t.drop_last()).contains_key(k@)) by {
            let t0 = t.drop_last();
            assert(unique_keys(t0)) by {
                assert(forall|p: int| 0 <= p < t0.len() ==> t0[p] == t[p]);
            }
            lemma_sm(t0);
            if slots_map(t0).contains_key(k@) {
                let j = choose|j: int|
                    0 <= j < t0.len() && (#[trigger] t0[j]) is Occupied && skey(t0[j]) == k@;
                assert(t[j] is Occupied && skey(t[j]) == skey(t[i]));
            }
        }
        assert(slots_map(t2) =~= slots_map(t).insert(k@, (v, h)));
    } else {
        let t0 = t.drop_last();
        assert(unique_keys(t0)) by {
            assert(forall|p: int| 0 <= p < t0.len() ==> t0[p] == t[p]);
        }
        assert(t0[i] is Occupied && skey(t0[i]) == k@);
        lemma_sm_replace(t0, i, k, v, h);
        assert(t2.drop_last() =~= t0.update(i, Slot::Occupied(k, v, h)));
        assert(t2.last() == t.last());
        if t.last() is Occupied {
            let lk = skey(t.last());
            assert(lk != k@) by {
                assert(t[t.len() - 1] is Occupied && t[i] is Occupied);
            }
            assert(slots_map(t2) =~= slots_map(t).insert(k@, (v, h)));
        }
    }
    assert(unique_keys(t2)) by {
        assert forall|p: int, q: int|
            0 <= p < t2.len() && 0 <= q < t2.len() && p != q && (#[trigger] t2[p]) is Occupied && (
            #[trigger] t2[q]) is Occupied implies skey(t2[p]) != skey(t2[q]) by {
            if p != i && q != i {
                assert(t[p] is Occupied && t[q] is Occupied);
            } else if p == i {
                assert(t[q] is Occupied && skey(t2[q]) == skey(t[q]) && skey(t[i]) == k@);
            } else {
                assert(t[p] is Occupied && skey(t2[p]) == skey(t[p]) && skey(t[i]) == k@);
            }
        }
    }
}

/// Effect on the model of replacing the occupied slot of key `k` with a
/// tombstone.
pub(crate) proof fn lemma_sm_bury<V>(t: Seq<Slot<V>>, i: int)
    requires
        0 <= i < t.len(),
        t[i] is Occupied,
        unique_keys(t),
    ensures
        slots_map(t.update(i, Slot::Deleted)) == slots_map(t).remove(skey(t[i])),
        num_occ(t.update(i, Slot::Deleted)) == num_occ(t) - 1,
        num_del(t.update(i, Slot::Deleted)) == num_del(t) + 1,
        unique_keys(t.update(i, Slot::Deleted)),
    decreases t.len(),
{
    lemma_sm(t);
    let t2 = t.update(i, Slot::Deleted);
    let k = skey(t[i]);
    if i == t.len() - 1 {
        assert(t2.drop_last() =~= t.drop_last());
        assert(!slots_map(t.drop_last()).contains_key(k)) by {
            let t0 = t.drop_last();
            assert(unique_keys(t0)) by {
                assert(forall|p: int| 0 <= p < t0.len() ==> t0[p] == t[p]);
            }
            lemma_sm(t0);
            if slots_map(t0).contains_key(k) {
                let j = choose|j: int|
                    0 <= j < t0.len() && (#[trigger] t0[j]) is Occupied && skey(t0[j]) == k;
                assert(t[j] is Occupied && skey(t[j]) == skey(t[i]));
            }
        }
        assert(slots_map(t2) =~= slots_map(t).remove(k));
    } else {
        let t0 = t.drop_last();
        assert(unique_keys(t0)) by {
            assert(forall|p: int| 0 <= p < t0.len() ==> t0[p] == t[p]);
        }
        assert(t0[i] is Occupied && skey(t0[i]) == k);
        lemma_sm_bury(t0, i);
        assert(t2.drop_last() =~= t0.update(i, Slot::Deleted));
        assert(t2.last() == t.last());
        if t.last() is Occupied {
            let lk = skey(t.last());
            assert(lk != k) by {
                assert(t[t.len() - 1] is Occupied && t[i] is Occupied);
            }
            assert(slots_map(t2) =~= slots_map(t).remove(k));
        }
    }
    assert(unique_keys(t2)) by {
        assert forall|p: int, q: int|
            0 <= p < t2.len() && 0 <= q < t2.len() && p != q && (#[trigger] t2[p]) is Occupied && (
            #[trigger] t2[q]) is Occupied implies skey(t2[p]) != skey(t2[q]) by {
            assert(t[p] is Occupied && t[q] is Occupied);
        }
    }
}

/// What a probe step saw at a slot, with the order-list handle copied out of
/// an occupied slot whose key matched.
pub(crate) enum ProbeStep {
    Matched(usize),
    Miss,
    Tombstone,
    Free,
}

/// Classifies one slot with respect to the probed-for key.
pub(crate) fn classify<V>(slot: &Slot<V>, key: &String) -> (c: ProbeStep)
    ensures
        c is Matched <==> (*slot is Occupied && skey(*slot) == key@),
        c is Matched ==> c == ProbeStep::Matched(shandle(*slot)),
        c is Miss <==> (*slot is Occupied && skey(*slot) != key@),
        c is Tombstone <==> *slot is Deleted,
        c is Free <==> *slot is Empty,
{
    match slot {
        Slot::Empty => ProbeStep::Free,
        Slot::Deleted => ProbeStep::Tombstone,
        Slot::Occupied(k, _, h) => {
            if *k == *key {
                ProbeStep::Matched(*h)
            } else {
                ProbeStep::Miss
            }
        },
    }
}

/// If a probe walk for `k` from its home index has seen `steps` slots none of
/// which holds `k`, and either stopped at an empty slot or went a full
/// revolution, then `k` is not in the table.
pub(crate) proof fn lemma_walk_miss<V>(t: Seq<Slot<V>>, seed: u64, k: Seq<char>, steps: int)
    requires
        1 <= t.len(),
        unique_keys(t),
        reach_ok(t, seed),
        0 <= steps <= t.len(),
        steps < t.len() ==> t[pos(t.len() as int, spec_home(seed, t.len() as int, k), steps)]
            is Empty,
        forall|d: int|
            0 <= d < steps ==> !((#[trigger] t[pos(t.len() as int, spec_home(
                seed,
                t.len() as int,
                k,
            ), d)]) is Occupied && skey(t[pos(t.len() as int, spec_home(seed, t.len() as int, k), d)])
                == k),
    ensures
        !slots_map(t).contains_key(k),
{
    let size = t.len() as int;
    let home = spec_home(seed, size, k);
    assert(0 <= home < size);
    lemma_sm(t);
    if slots_map(t).contains_key(k) {
        let i = choose|i: int| 0 <= i < t.len() && (#[trigger] t[i]) is Occupied && skey(t[i]) == k;
        let d0 = dist(size, home, i);
        assert(0 <= d0 < size);
        assert(pos(size, home, d0) == i);
        if d0 < steps {
            assert(t[pos(size, home, d0)] is Occupied && skey(t[pos(size, home, d0)]) == k);
            assert(false);
        } else {
            assert(steps < t.len());
            assert(!(t[pos(size, spec_home(seed, size, skey(t[i])), steps)] is Empty));
            assert(false);
        }
    }
}

/// Relies on std::hash::RandomState and BuildHasher::hash_one for a fresh
/// per-instance seed; nothing is promised of the value.
#[verifier::external_body]
fn random_seed() -> u64 {
    RandomState::new().hash_one(0u64)
}

/// `o` with the (unique) occurrence of `k` taken out, or `o` itself when `k`
/// does not occur.
pub open spec fn remove_key(o: Seq<Seq<char>>, k: Seq<char>) -> Seq<Seq<char>> {
    if o.contains(k) {
        o.remove(o.index_of(k))
    } else {
        o
    }
}

impl<V> View for FixedHashTable<V> {
    type V = Map<Seq<char>, V>;

    /// The key-to-value map the table holds.
    closed spec fn view(&self) -> Map<Seq<char>, V> {
        slots_map(self.table@).map_values(|p: (V, usize)| p.0)
    }
}

impl<V> FixedHashTable<V> {
    /// The number of slots the table was created with.
    pub closed spec fn capacity(&self) -> int {
        self.size as int
    }

    /// The live keys ordered by their latest insert or update, oldest first.
    pub closed spec fn order(&self) -> Seq<Seq<char>> {
        Seq::new(self.history@.len(), |p: int| self.history@[p]@)
    }

    /// Number of tombstones currently in the table.
    pub closed spec fn tombstones(&self) -> int {
        self.deleted_count as int
    }

    spec fn home(&self, k: Seq<char>) -> int {
        spec_home(self.seed, self.size as int, k)
    }

    /// Well-formedness: slot bookkeeping is consistent, keys are unique,
    /// every occupied slot is reachable from its home index, and the order
    /// list holds exactly the live keys, each node's handle stored in that
    /// key's slot.
    pub closed spec fn wf(&self) -> bool {
        let t = self.table@;
        &&& self.size >= 1
        &&& t.len() == self.size
        &&& self.scratch@.len() == self.size
        &&& forall|i: int| 0 <= i < self.size ==> (#[trigger] self.scratch@[i]) is Empty
        &&& self.count == num_occ(t)
        &&& self.deleted_count == num_del(t)
        &&& unique_keys(t)
        &&& reach_ok(t, self.seed)
        &&& self.history.wf()
        &&& self.history@.len() == self.count
        &&& forall|p: int|
            0 <= p < self.history@.len() ==> slots_map(t).contains_key(
                (#[trigger] self.history@[p])@,
            ) && slots_map(t)[self.history@[p]@].1 == self.history.handles()[p]
        &&& forall|i: int|
            0 <= i < t.len() && (#[trigger] t[i]) is Occupied ==> exists|p: int|
                0 <= p < self.history@.len() && (#[trigger] self.history@[p])@ == skey(t[i])
        &&& forall|p: int, q: int|
            0 <= p < self.history@.len() && 0 <= q < self.history@.len() && p != q ==> (
            #[trigger] self.history@[p])@ != (#[trigger] self.history@[q])@
    }

    /// Computes the home index of `key` in a table of `self.size` slots.
    fn hash_index(&self, key: &String) -> (idx: usize)
        requires
            self.size >= 1,
        ensures
            idx as int == self.home(key@),
            idx < self.size,
    {
        let mut hasher = DefaultHasher::new();
        let seed = self.seed;
        let mut sb: Vec<u8> = Vec::new();
        sb.push(seed as u8);
        sb.push((seed >> 8u64) as u8);
        sb.push((seed >> 16u64) as u8);
        sb.push((seed >> 24u64) as u8);
        sb.push((seed >> 32u64) as u8);
        sb.push((seed >> 40u64) as u8);
        sb.push((seed >> 48u64) as u8);
        sb.push((seed >> 56u64) as u8);
        proof {
            assert(sb@ =~= seed_bytes(seed));
        }
        hasher.write(sb.as_slice());
        hasher.write(key.as_str().as_bytes());
        proof {
            assert(hasher@ =~= seq![seed_bytes(seed), encode_utf8(key@)]);
        }
        let h = hasher.finish();
        let m = h % (self.size as u64);
        proof {
            assert(m < self.size as u64);
            assert(m as int == spec_hash(seed, key@) as int % self.size as int);
        }
        m as usize
    }

    /// A vector of `size` empty slots.
    fn empty_slots(size: usize) -> (v: Vec<Slot<V>>)
        ensures
            v@.len() == size,
            forall|i: int| 0 <= i < size ==> (#[trigger] v@[i]) is Empty,
    {
        let mut v: Vec<Slot<V>> = Vec::new();
        let mut i: usize = 0;
        while i < size
            invariant
                i <= size,
                v@.len() == i,
                forall|j: int| 0 <= j < i ==> (#[trigger] v@[j]) is Empty,
            decreases size - i,
        {
            v.push(Slot::Empty);
            i = i + 1;
        }
        v
    }

    /// Creates a table of `size` slots with the given hash seed. Behaves like
    /// `new` but deterministically; intended for reproducible runs.
    pub fn with_seed(size: usize, seed: u64) -> (t: Self)
        requires
            1 <= size,
        ensures
            t.wf(),
            t@ == Map::<Seq<char>, V>::empty(),
            t.order() == Seq::<Seq<char>>::empty(),
            t.capacity() == size,
            t.tombstones() == 0,
    {
        let table = Self::empty_slots(size);
        let scratch = Self::empty_slots(size);
        let t = Self {
            table,
            scratch,
            history: DoublyLinkedList::new(),
            seed,
            size,
            count: 0,
            deleted_count: 0,
        };
        proof {
            lemma_all_empty(t.table@);
            assert(t@ =~= Map::<Seq<char>, V>::empty());
            assert(t.order() =~= Seq::<Seq<char>>::empty());
        }
        t
    }

    /// Creates a table of `size` slots, seeding the hash function freshly for
    /// this instance to defend against adversarial key distributions.
    pub fn new(size: usize) -> (t: Self)
        requires
            1 <= size,
        ensures
            t.wf(),
            t@ == Map::<Seq<char>, V>::empty(),
            t.order() == Seq::<Seq<char>>::empty(),
            t.capacity() == size,
            t.tombstones() == 0,
    {
        let seed = random_seed();
        Self::with_seed(size, seed)
    }

    /// Number of live entries.
    pub fn len(&self) -> (n: usize)
        requires
            self.wf(),
        ensures
            n == self@.dom().len(),
            n <= self.capacity(),
    {
        proof {
            lemma_sm(self.table@);
            lemma_counts(self.table@);
            assert(self@.dom() =~= slots_map(self.table@).dom());
        }
        self.count
    }

    /// Whether slot `i` is occupied by key `k`.
    pub closed spec fn slot_key_at(&self, i: int, k: Seq<char>) -> bool {
        0 <= i < self.table@.len() && self.table@[i] is Occupied && skey(self.table@[i]) == k
    }

    /// Probes for `key` and returns the index of its slot, or `None` when the
    /// key is absent.
    pub fn get_index(&self, key: &String) -> (r: Option<usize>)
        requires
            self.wf(),
        ensures
            match r {
                Some(i) => self@.contains_key(key@) && i < self.capacity() && self.slot_key_at(
                    i as int,
                    key@,
                ),
                None => !self@.contains_key(key@),
            },
    {
        let ghost size = self.size as int;
        let ghost ghome = self.home(key@);
        let home = self.hash_index(key);
        let mut index = home;
        let mut step: usize = 0;
        while step < self.size
            invariant
                self.wf(),
                home as int == ghome,
                ghome == self.home(key@),
                home < self.size,
                size == self.size as int,
                step <= self.size,
                index as int == pos(size, ghome, step as int),
                index < self.size,
                forall|d: int|
                    0 <= d < step ==> !((#[trigger] self.table@[pos(size, ghome, d)]) is Occupied
                        && skey(self.table@[pos(size, ghome, d)]) == key@),
            decreases self.size - step,
        {
            match classify(&self.table[index], key) {
                ProbeStep::Matched(_h) => {
                    proof {
                        lemma_sm(self.table@);
                        assert(self@.contains_key(key@)) by {
                            assert(slots_map(self.table@).contains_key(key@));
                        }
                    }
                    return Some(index);
                },
                ProbeStep::Free => {
                    proof {
                        lemma_walk_miss(self.table@, self.seed, key@, step as int);
                        assert(!self@.contains_key(key@)) by {
                            assert(!slots_map(self.table@).contains_key(key@));
                        }
                    }
                    return None;
                },
                _ => {},
            }
            proof {
                assert(pos(size, ghome, step + 1) == if index as int + 1 < size {
                    index as int + 1
                } else {
                    0int
                });
            }
            index = index + 1;
            if index == self.size {
                index = 0;
            }
            step = step + 1;
        }
        proof {
            lemma_walk_miss(self.table@, self.seed, key@, self.size as int);
            assert(!self@.contains_key(key@)) by {
                assert(!slots_map(self.table@).contains_key(key@));
            }
        }
        None
    }

    /// Looks `key` up and borrows its value; `None` exactly when the key is
    /// absent.
    pub fn get(&self, key: &String) -> (r: Option<&V>)
        requires
            self.wf(),
        ensures
            match r {
                Some(v) => self@.contains_key(key@) && *v == self@[key@],
                None => !self@.contains_key(key@),
            },
    {
        match self.get_index(key) {
            None => None,
            Some(i) => match &self.table[i] {
                Slot::Occupied(_, v, _) => {
                    proof {
                        lemma_sm(self.table@);
                        assert(self@[key@] == slots_map(self.table@)[key@].0);
                    }
                    Some(v)
                },
                _ => {
                    proof {
                        assert(false);
                    }
                    None
                },
            },
        }
    }

    /// Borrows the value of `key` mutably. Writing through the reference
    /// changes the key's value and nothing else; in particular the order list
    /// is not touched, so an in-place update does not refresh recency.
    pub fn get_mut(&mut self, key: &String) -> (r: &mut V)
        requires
            old(self).wf(),
            old(self)@.contains_key(key@),
        ensures
            final(self).wf(),
            *r == old(self)@[key@],
            final(self)@ == old(self)@.insert(key@, *final(r)),
            final(self).order() == old(self).order(),
            final(self).capacity() == old(self).capacity(),
            final(self).tombstones() == old(self).tombstones(),
    {
        let ghost t0 = self.table@;
        let i = match self.get_index(key) {
            Some(i) => i,
            None => {
                proof {
                    assert(false);
                }
                0
            },
        };
        proof {
            lemma_sm(t0);
            let seed = self.seed;
            let ks = t0[i as int]->Occupied_0;
            let hs = t0[i as int]->Occupied_2;
            assert(ks@ == key@ && hs == shandle(t0[i as int]));
            assert forall|fv: V|
                #![trigger t0.update(i as int, Slot::Occupied(ks, fv, hs))]
                ({
                    let t2 = t0.update(i as int, Slot::Occupied(ks, fv, hs));
                    &&& slots_map(t2) == slots_map(t0).insert(key@, (fv, hs))
                    &&& num_occ(t2) == num_occ(t0)
                    &&& num_del(t2) == num_del(t0)
                    &&& unique_keys(t2)
                    &&& reach_ok(t2, seed)
                    &&& forall|p: int|
                        0 <= p < self.history@.len() ==> slots_map(t2).contains_key(
                            (#[trigger] self.history@[p])@,
                        ) && slots_map(t2)[self.history@[p]@].1 == self.history.handles()[p]
                    &&& forall|ii: int|
                        0 <= ii < t2.len() && (#[trigger] t2[ii]) is Occupied ==> exists|p: int|
                            0 <= p < self.history@.len() && (#[trigger] self.history@[p])@ == skey(
                                t2[ii],
                            )
                    &&& slots_map(t2).map_values(|pr: (V, usize)| pr.0) == slots_map(
                        t0,
                    ).map_values(|pr: (V, usize)| pr.0).insert(key@, fv)
                }) by {
                let t2 = t0.update(i as int, Slot::Occupied(ks, fv, hs));
                lemma_sm_replace(t0, i as int, ks, fv, hs);
                assert(slots_map(t2).map_values(|pr: (V, usize)| pr.0) =~= slots_map(
                    t0,
                ).map_values(|pr: (V, usize)| pr.0).insert(key@, fv));
                assert forall|p: int| 0 <= p < self.history@.len() implies slots_map(
                    t2,
                ).contains_key((#[trigger] self.history@[p])@) && slots_map(
                    t2,
                )[self.history@[p]@].1 == self.history.handles()[p] by {
                    assert(slots_map(t0).contains_key(self.history@[p]@));
                    assert(slots_map(t0)[self.history@[p]@].1 == self.history.handles()[p]);
                    assert(slots_map(t0)[key@].1 == hs);
                }
                assert forall|ii: int|
                    0 <= ii < t2.len() && (#[trigger] t2[ii]) is Occupied implies exists|p: int|
                    0 <= p < self.history@.len() && (#[trigger] self.history@[p])@ == skey(
                        t2[ii],
                    ) by {
                    assert(t0[ii] is Occupied && skey(t2[ii]) == skey(t0[ii]));
                }
                assert forall|ii: int, d: int|
                    0 <= ii < t2.len() && (#[trigger] t2[ii]) is Occupied && 0 <= d < dist(
                        t2.len() as int,
                        spec_home(seed, t2.len() as int, skey(t2[ii])),
                        ii,
                    ) implies !((#[trigger] t2[pos(
                    t2.len() as int,
                    spec_home(seed, t2.len() as int, skey(t2[ii])),
                    d,
                )]) is Empty) by {
                    assert(t0[ii] is Occupied && skey(t0[ii]) == skey(t2[ii]));
                    assert(!(t0[pos(
                        t0.len() as int,
                        spec_home(seed, t0.len() as int, skey(t0[ii])),
                        d,
                    )] is Empty));
                }
            }
        }
        match &mut self.table[i] {
            Slot::Occupied(_k, v, _h) => v,
            _ => {
                proof {
                    assert(false);
                }
                vstd::pervasive::unreached()
            },
        }
    }

    /// Places `key` (known to be absent) with `value` into the empty slot or
    /// tombstone at `idx`, appending the key at the tail of the order list.
    fn insert_at(&mut self, idx: usize, key: String, value: V)
        requires
            old(self).wf(),
            idx < old(self).table@.len(),
            !(old(self).table@[idx as int] is Occupied),
            !old(self)@.contains_key(key@),
            old(self).count < old(self).size,
            forall|d: int|
                0 <= d < dist(
                    old(self).size as int,
                    spec_home(old(self).seed, old(self).size as int, key@),
                    idx as int,
                ) ==> !((#[trigger] old(self).table@[pos(
                    old(self).size as int,
                    spec_home(old(self).seed, old(self).size as int, key@),
                    d,
                )]) is Empty),
        ensures
            final(self).wf(),
            final(self)@ == old(self)@.insert(key@, value),
            final(self).order() == old(self).order().push(key@),
            final(self).capacity() == old(self).capacity(),
            final(self).tombstones() == old(self).tombstones() - (if old(self).table@[idx as int]
                is Deleted {
                1int
            } else {
                0int
            }),
    {
        let ghost t0 = self.table@;
        let ghost seed = self.seed;
        let ghost size = self.size as int;
        let ghost h0 = self.history;
        proof {
            lemma_sm(t0);
            assert(!slots_map(t0).contains_key(key@)) by {
                assert(self@.dom() =~= slots_map(t0).dom());
            }
        }
        let was_deleted = match &self.table[idx] {
            Slot::Deleted => true,
            _ => false,
        };
        let node = self.history.push_back(key.clone());
        self.table.set(idx, Slot::Occupied(key, value, node));
        self.count = self.count + 1;
        if was_deleted {
            proof {
                lemma_del_at(t0, idx as int);
            }
            self.deleted_count = self.deleted_count - 1;
        }
        proof {
            h0.lemma_handles();
            self.history.lemma_handles();
            let t2 = self.table@;
            let kk = t2[idx as int]->Occupied_0;
            assert(kk@ == key@);
            assert(self.history@ == h0@.push(kk)) by {
                assert(t2 == t0.update(idx as int, Slot::Occupied(kk, value, node)));
            }
            assert(self.history.handles() == h0.handles().push(node));
            assert(t2 == t0.update(idx as int, t2[idx as int]));
            lemma_sm_place(t0, idx as int, t2[idx as int]->Occupied_0, value, node);
            lemma_counts(t0);
            assert(final(self)@ =~= old(self)@.insert(key@, value)) by {
                assert(slots_map(t2) == slots_map(t0).insert(key@, (value, node)));
            }
            assert(final(self).order() =~= old(self).order().push(key@));
            // reachability: the only changed cell went from non-occupied to
            // occupied, so no probe path gains an empty cell.
            assert forall|ii: int, d: int|
                0 <= ii < t2.len() && (#[trigger] t2[ii]) is Occupied && 0 <= d < dist(
                    size,
                    spec_home(seed, size, skey(t2[ii])),
                    ii,
                ) implies !((#[trigger] t2[pos(size, spec_home(seed, size, skey(t2[ii])), d)])
                is Empty) by {
                let home_i = spec_home(seed, size, skey(t2[ii]));
                if ii == idx {
                    assert(skey(t2[ii]) == key@);
                    assert(!(t0[pos(size, home_i, d)] is Empty));
                } else {
                    assert(t0[ii] is Occupied && skey(t0[ii]) == skey(t2[ii]));
                    assert(!(t0[pos(size, home_i, d)] is Empty));
                }
            }
            // the order list gained exactly the new key at its tail
            assert forall|p: int| 0 <= p < self.history@.len() implies slots_map(
                t2,
            ).contains_key((#[trigger] self.history@[p])@) && slots_map(
                t2,
            )[self.history@[p]@].1 == self.history.handles()[p] by {
                if p < h0@.len() {
                    assert(self.history@[p] == h0@[p]);
                    assert(self.history.handles()[p] == h0.handles()[p]);
                    assert(slots_map(t0).contains_key(h0@[p]@));
                    assert(h0@[p]@ != key@);
                } else {
                    assert(self.history@[p] == kk);
                    assert(self.history.handles()[p] == node);
                    assert(slots_map(t2)[kk@] == (value, node));
                }
            }
            assert forall|ii: int|
                0 <= ii < t2.len() && (#[trigger] t2[ii]) is Occupied implies exists|p: int|
                0 <= p < self.history@.len() && (#[trigger] self.history@[p])@ == skey(
                    t2[ii],
                ) by {
                if ii == idx {
                    assert(self.history@[self.history@.len() - 1]@ == skey(t2[ii]));
                } else {
                    assert(t0[ii] is Occupied && skey(t0[ii]) == skey(t2[ii]));
                    let p = choose|p: int|
                        0 <= p < h0@.len() && (#[trigger] h0@[p])@ == skey(t0[ii]);
                    assert(self.history@[p]@ == skey(t2[ii]));
                }
            }
            assert forall|p: int, q: int|
                0 <= p < self.history@.len() && 0 <= q < self.history@.len() && p
                    != q implies (#[trigger] self.history@[p])@ != (#[trigger] self.history@[q])@
                by {
                if p < h0@.len() && q < h0@.len() {
                    assert(h0@[p]@ != h0@[q]@);
                } else if p < h0@.len() {
                    assert(slots_map(t0).contains_key(h0@[p]@));
                } else if q < h0@.len() {
                    assert(slots_map(t0).contains_key(h0@[q]@));
                }
            }
        }
    }

    /// Replaces the value of `key`, already occupying the slot at `idx`, and
    /// moves the key to the tail of the order list.
    fn update_at(&mut self, idx: usize, h: usize, key: String, value: V)
        requires
            old(self).wf(),
            old(self).slot_key_at(idx as int, key@),
            h == shandle(old(self).table@[idx as int]),
        ensures
            final(self).wf(),
            final(self)@ == old(self)@.insert(key@, value),
            final(self).order() == remove_key(old(self).order(), key@).push(key@),
            final(self).capacity() == old(self).capacity(),
            final(self).tombstones() == old(self).tombstones(),
    {
        let ghost t0 = self.table@;
        let ghost seed = self.seed;
        let ghost size = self.size as int;
        let ghost h0 = self.history;
        let ghost ord0 = self.order();
        proof {
            lemma_sm(t0);
        }
        proof {
            h0.lemma_handles();
            assert(t0[idx as int] is Occupied);
            assert(exists|p: int|
                0 <= p < h0@.len() && (#[trigger] h0@[p])@ == skey(t0[idx as int]));
        }
        let ghost pstar = choose|p: int|
            0 <= p < h0@.len() && (#[trigger] h0@[p])@ == skey(t0[idx as int]);
        proof {
            assert(0 <= pstar < h0@.len() && h0@[pstar]@ == key@);
            assert(slots_map(t0)[key@].1 == h);
            assert(slots_map(t0)[h0@[pstar]@].1 == h0.handles()[pstar]);
            assert(h0.handles()[pstar] == h);
            assert(h0.handles().contains(h)) by {
                assert(0 <= pstar < h0.handles().len() && h0.handles()[pstar] == h);
            }
            assert(h0.handles().index_of(h) == pstar) by {
                let q = h0.handles().index_of(h);
                assert(0 <= q < h0.handles().len() && h0.handles()[q] == h);
            }
        }
        self.history.remove(h);
        let node = self.history.push_back(key.clone());
        self.table.set(idx, Slot::Occupied(key, value, node));
        proof {
            self.history.lemma_handles();
            let t2 = self.table@;
            lemma_sm_replace(t0, idx as int, t2[idx as int]->Occupied_0, value, node);
            assert(slots_map(t2) == slots_map(t0).insert(key@, (value, node)));
            assert(final(self)@ =~= old(self)@.insert(key@, value));
            assert(self.history@ == h0@.remove(pstar).push(t2[idx as int]->Occupied_0));
            assert(self.history.handles() == h0.handles().remove(pstar).push(node));
            // the new order is the old order with `key` moved to the tail
            assert(final(self).order() == remove_key(ord0, key@).push(key@)) by {
                assert(ord0.contains(key@)) by {
                    assert(ord0[pstar] == key@);
                }
                assert(ord0.index_of(key@) == pstar) by {
                    let q = ord0.index_of(key@);
                    assert(0 <= q < ord0.len() && ord0[q] == key@);
                }
                assert(final(self).order() =~= ord0.remove(pstar).push(key@));
            }
            // reachability is unchanged: the cell kept its key
            assert forall|ii: int, d: int|
                0 <= ii < t2.len() && (#[trigger] t2[ii]) is Occupied && 0 <= d < dist(
                    size,
                    spec_home(seed, size, skey(t2[ii])),
                    ii,
                ) implies !((#[trigger] t2[pos(size, spec_home(seed, size, skey(t2[ii])), d)])
                is Empty) by {
                assert(t0[ii] is Occupied && skey(t0[ii]) == skey(t2[ii]));
                assert(!(t0[pos(size, spec_home(seed, size, skey(t0[ii])), d)] is Empty));
            }
            // order-list synchronisation
            let hn = self.history@;
            assert forall|p: int| 0 <= p < hn.len() implies slots_map(t2).contains_key(
                (#[trigger] hn[p])@,
            ) && slots_map(t2)[hn[p]@].1 == self.history.handles()[p] by {
                if p < hn.len() - 1 {
                    let po = if p < pstar {
                        p
                    } else {
                        p + 1
                    };
                    assert(hn[p] == h0@[po]);
                    assert(self.history.handles()[p] == h0.handles()[po]);
                    assert(slots_map(t0).contains_key(h0@[po]@));
                    assert(h0@[po]@ != key@) by {
                        assert(h0@[pstar]@ == key@);
                    }
                } else {
                    assert(hn[p]@ == key@);
                }
            }
            assert forall|ii: int|
                0 <= ii < t2.len() && (#[trigger] t2[ii]) is Occupied implies exists|p: int|
                0 <= p < hn.len() && (#[trigger] hn[p])@ == skey(t2[ii]) by {
                if ii == idx {
                    assert(hn[hn.len() - 1]@ == skey(t2[ii]));
                } else {
                    assert(t0[ii] is Occupied && skey(t0[ii]) == skey(t2[ii]));
                    let po = choose|p: int|
                        0 <= p < h0@.len() && (#[trigger] h0@[p])@ == skey(t0[ii]);
                    assert(po != pstar) by {
                        assert(skey(t0[ii]) != skey(t0[idx as int]));
                    }
                    let pn = if po < pstar {
                        po
                    } else {
                        po - 1
                    };
                    assert(hn[pn] == h0@[po]);
                }
            }
            assert forall|p: int, q: int|
                0 <= p < hn.len() && 0 <= q < hn.len() && p != q implies (#[trigger] hn[p])@ != (
            #[trigger] hn[q])@ by {
                let pm = if p < hn.len() - 1 {
                    if p < pstar {
                        p
                    } else {
                        p + 1
                    }
                } else {
                    pstar
                };
                let qm = if q < hn.len() - 1 {
                    if q < pstar {
                        q
                    } else {
                        q + 1
                    }
                } else {
                    pstar
                };
                assert(hn[p]@ == h0@[pm]@ && hn[q]@ == h0@[qm]@);
                assert(pm != qm);
            }
        }
    }

    /// Inserts `key` with `value`, or updates the key's value if present;
    /// either way the key becomes the newest entry of the order list. Returns
    /// `false` without changing anything when the table is already full.
    pub fn insert(&mut self, key: String, value: V) -> (r: bool)
        requires
            old(self).wf(),
        ensures
            final(self).wf(),
            final(self).capacity() == old(self).capacity(),
            r == (old(self)@.dom().len() < old(self).capacity()),
            !r ==> *final(self) == *old(self),
            r ==> final(self)@ == old(self)@.insert(key@, value) && final(self).order()
                == remove_key(old(self).order(), key@).push(key@),
            r && old(self)@.contains_key(key@) ==> final(self).tombstones() == old(
                self,
            ).tombstones(),
            r ==> old(self).tombstones() - 1 <= final(self).tombstones() <= old(
                self,
            ).tombstones(),
    {
        proof {
            lemma_sm(self.table@);
            assert(self@.dom() =~= slots_map(self.table@).dom());
        }
        if self.count >= self.size {
            return false;
        }
        let ghost t0 = self.table@;
        let ghost size = self.size as int;
        let ghost seed = self.seed;
        let home = self.hash_index(&key);
        let ghost ghome = self.home(key@);
        let mut index = home;
        let mut step: usize = 0;
        let mut tomb: Option<usize> = None;
        while step < self.size
            invariant
                *self == *old(self),
                self.wf(),
                self.count < self.size,
                old(self)@.dom().len() == old(self).count as int,
                t0 == self.table@,
                home as int == ghome,
                ghome == spec_home(seed, size, key@),
                home < self.size,
                size == self.size as int,
                seed == self.seed,
                step <= self.size,
                index as int == pos(size, ghome, step as int),
                index < self.size,
                forall|d: int|
                    0 <= d < step ==> !((#[trigger] t0[pos(size, ghome, d)]) is Empty) && !(
                    t0[pos(size, ghome, d)] is Occupied && skey(t0[pos(size, ghome, d)]) == key@),
                match tomb {
                    Some(ti) => ti < self.size && t0[ti as int] is Deleted && exists|d: int|
                        0 <= d < step && ti as int == pos(size, ghome, d),
                    None => forall|d: int|
                        0 <= d < step ==> !((#[trigger] t0[pos(size, ghome, d)]) is Deleted),
                },
            decreases self.size - step,
        {
            match classify(&self.table[index], &key) {
                ProbeStep::Matched(h) => {
                    proof {
                        lemma_sm(t0);
                        assert(old(self)@.contains_key(key@)) by {
                            assert(old(self)@.dom() =~= slots_map(t0).dom());
                        }
                    }
                    self.update_at(index, h, key, value);
                    return true;
                },
                ProbeStep::Free => {
                    proof {
                        lemma_walk_miss(t0, seed, key@, step as int);
                        lemma_sm(t0);
                        assert(!self@.contains_key(key@)) by {
                            assert(self@.dom() =~= slots_map(t0).dom());
                        }
                    }
                    match tomb {
                        Some(ti) => {
                            proof {
                                let d0 = choose|d: int|
                                    0 <= d < step && ti as int == pos(size, ghome, d);
                                assert(dist(size, ghome, ti as int) == d0);
                            }
                            self.insert_at(ti, key, value);
                        },
                        None => {
                            proof {
                                assert(dist(size, ghome, index as int) == step as int);
                            }
                            self.insert_at(index, key, value);
                        },
                    }
                    return true;
                },
                ProbeStep::Tombstone => {
                    if tomb.is_none() {
                        tomb = Some(index);
                        proof {
                            assert(index as int == pos(size, ghome, step as int));
                        }
                    }
                },
                ProbeStep::Miss => {},
            }
            proof {
                assert(pos(size, ghome, step + 1) == if index as int + 1 < size {
                    index as int + 1
                } else {
                    0int
                });
            }
            index = index + 1;
            if index == self.size {
                index = 0;
            }
            step = step + 1;
        }
        match tomb {
            Some(ti) => {
                proof {
                    lemma_walk_miss(t0, seed, key@, size);
                    lemma_sm(t0);
                    assert(!self@.contains_key(key@)) by {
                        assert(self@.dom() =~= slots_map(t0).dom());
                    }
                    let d0 = choose|d: int| 0 <= d < step && ti as int == pos(size, ghome, d);
                    assert(dist(size, ghome, ti as int) == d0);
                }
                self.insert_at(ti, key, value);
                true
            },
            None => {
                proof {
                    // a full revolution saw neither an empty slot nor a
                    // tombstone nor the key: every slot is occupied, which
                    // contradicts count < size
                    assert forall|x: int| 0 <= x < size implies (#[trigger] t0[x]) is Occupied by {
                        let d = dist(size, ghome, x);
                        assert(0 <= d < size && pos(size, ghome, d) == x);
                    }
                    lemma_all_occupied(t0);
                    assert(false);
                }
                false
            },
        }
    }

    /// Replaces the occupied slot at `idx` with a tombstone and unlinks the
    /// key's node from the order list.
    fn remove_entry(&mut self, idx: usize, h: usize)
        requires
            old(self).wf(),
            idx < old(self).table@.len(),
            old(self).table@[idx as int] is Occupied,
            h == shandle(old(self).table@[idx as int]),
        ensures
            final(self).wf(),
            final(self)@ == old(self)@.remove(skey(old(self).table@[idx as int])),
            final(self).order() == remove_key(
                old(self).order(),
                skey(old(self).table@[idx as int]),
            ),
            final(self).capacity() == old(self).capacity(),
            final(self).tombstones() == old(self).tombstones() + 1,
    {
        let ghost t0 = self.table@;
        let ghost seed = self.seed;
        let ghost size = self.size as int;
        let ghost h0 = self.history;
        let ghost kv = skey(t0[idx as int]);
        let ghost ord0 = self.order();
        proof {
            lemma_sm(t0);
            h0.lemma_handles();
            assert(t0[idx as int] is Occupied);
            assert(exists|p: int|
                0 <= p < h0@.len() && (#[trigger] h0@[p])@ == skey(t0[idx as int]));
        }
        let ghost pstar = choose|p: int|
            0 <= p < h0@.len() && (#[trigger] h0@[p])@ == skey(t0[idx as int]);
        proof {
            assert(0 <= pstar < h0@.len() && h0@[pstar]@ == kv);
            assert(slots_map(t0)[kv].1 == h);
            assert(slots_map(t0)[h0@[pstar]@].1 == h0.handles()[pstar]);
            assert(h0.handles()[pstar] == h);
            assert(h0.handles().contains(h)) by {
                assert(0 <= pstar < h0.handles().len() && h0.handles()[pstar] == h);
            }
            assert(h0.handles().index_of(h) == pstar) by {
                let q = h0.handles().index_of(h);
                assert(0 <= q < h0.handles().len() && h0.handles()[q] == h);
            }
        }
        self.history.remove(h);
        self.table.set(idx, Slot::Deleted);
        proof {
            lemma_occ_at(t0, idx as int);
            lemma_counts(t0);
        }
        self.count = self.count - 1;
        self.deleted_count = self.deleted_count + 1;
        proof {
            self.history.lemma_handles();
            let t2 = self.table@;
            lemma_sm_bury(t0, idx as int);
            assert(slots_map(t2) == slots_map(t0).remove(kv));
            assert(final(self)@ =~= old(self)@.remove(kv));
            assert(self.history@ == h0@.remove(pstar));
            // the new order is the old order without the removed key
            assert(final(self).order() == remove_key(ord0, kv)) by {
                assert(ord0.contains(kv)) by {
                    assert(ord0[pstar] == kv);
                }
                assert(ord0.index_of(kv) == pstar) by {
                    let q = ord0.index_of(kv);
                    assert(0 <= q < ord0.len() && ord0[q] == kv);
                }
                assert(final(self).order() =~= ord0.remove(pstar));
            }
            // reachability: the cell turned from occupied into a tombstone,
            // which is still not empty, so every remaining path stays closed
            assert forall|ii: int, d: int|
                0 <= ii < t2.len() && (#[trigger] t2[ii]) is Occupied && 0 <= d < dist(
                    size,
                    spec_home(seed, size, skey(t2[ii])),
                    ii,
                ) implies !((#[trigger] t2[pos(size, spec_home(seed, size, skey(t2[ii])), d)])
                is Empty) by {
                assert(t0[ii] is Occupied && skey(t0[ii]) == skey(t2[ii]));
                assert(!(t0[pos(size, spec_home(seed, size, skey(t0[ii])), d)] is Empty));
            }
            // order-list synchronisation
            let hn = self.history@;
            assert forall|p: int| 0 <= p < hn.len() implies slots_map(t2).contains_key(
                (#[trigger] hn[p])@,
            ) && slots_map(t2)[hn[p]@].1 == self.history.handles()[p] by {
                let po = if p < pstar {
                    p
                } else {
                    p + 1
                };
                assert(hn[p] == h0@[po]);
                assert(self.history.handles()[p] == h0.handles()[po]);
                assert(slots_map(t0).contains_key(h0@[po]@));
                assert(h0@[po]@ != kv) by {
                    assert(h0@[pstar]@ == kv);
                }
            }
            assert forall|ii: int|
                0 <= ii < t2.len() && (#[trigger] t2[ii]) is Occupied implies exists|p: int|
                0 <= p < hn.len() && (#[trigger] hn[p])@ == skey(t2[ii]) by {
                assert(t0[ii] is Occupied && skey(t0[ii]) == skey(t2[ii]));
                let po = choose|p: int| 0 <= p < h0@.len() && (#[trigger] h0@[p])@ == skey(t0[ii]);
                assert(po != pstar) by {
                    assert(skey(t0[ii]) != skey(t0[idx as int]));
                }
                let pn = if po < pstar {
                    po
                } else {
                    po - 1
                };
                assert(hn[pn] == h0@[po]);
            }
            assert forall|p: int, q: int|
                0 <= p < hn.len() && 0 <= q < hn.len() && p != q implies (#[trigger] hn[p])@ != (
            #[trigger] hn[q])@ by {
                let pm = if p < pstar {
                    p
                } else {
                    p + 1
                };
                let qm = if q < pstar {
                    q
                } else {
                    q + 1
                };
                assert(hn[p]@ == h0@[pm]@ && hn[q]@ == h0@[qm]@);
                assert(pm != qm);
            }
        }
    }

    /// Whether a deletion that leaves `live` entries and `dead` tombstones
    /// in `cap` slots must rehash: at least 70% of the slots are live or
    /// dead, and more than a third of the slots are tombstones.
    pub open spec fn rehash_due(cap: int, live: int, dead: int) -> bool {
        10 * (live + dead) >= 7 * cap && 3 * dead > cap
    }

    /// Deletes `key` if present, leaving a tombstone, and removes the key
    /// from the order list; then rehashes exactly when the table has become
    /// crowded with tombstones. Returns whether the key was present.
    pub fn delete(&mut self, key: &String) -> (r: bool)
        requires
            old(self).wf(),
        ensures
            final(self).wf(),
            final(self).capacity() == old(self).capacity(),
            r == old(self)@.contains_key(key@),
            final(self)@ == old(self)@.remove(key@),
            final(self).order() == remove_key(old(self).order(), key@),
            !r ==> *final(self) == *old(self),
            r ==> final(self).tombstones() == (if Self::rehash_due(
                old(self).capacity(),
                old(self)@.dom().len() - 1,
                old(self).tombstones() + 1,
            ) {
                0int
            } else {
                old(self).tombstones() + 1
            }),
    {
        let ghost t0 = self.table@;
        let ghost size = self.size as int;
        let ghost seed = self.seed;
        let home = self.hash_index(key);
        let ghost ghome = self.home(key@);
        let mut index = home;
        let mut step: usize = 0;
        while step < self.size
            invariant
                *self == *old(self),
                self.wf(),
                t0 == self.table@,
                home as int == ghome,
                ghome == spec_home(seed, size, key@),
                home < self.size,
                size == self.size as int,
                seed == self.seed,
                step <= self.size,
                index as int == pos(size, ghome, step as int),
                index < self.size,
                forall|d: int|
                    0 <= d < step ==> !((#[trigger] t0[pos(size, ghome, d)]) is Empty) && !(
                    t0[pos(size, ghome, d)] is Occupied && skey(t0[pos(size, ghome, d)]) == key@),
            decreases self.size - step,
        {
            match classify(&self.table[index], key) {
                ProbeStep::Matched(h) => {
                    proof {
                        lemma_sm(t0);
                        assert(old(self)@.contains_key(key@)) by {
                            assert(slots_map(t0).contains_key(key@));
                            assert(old(self)@.dom() =~= slots_map(t0).dom());
                        }
                    }
                    proof {
                        assert(old(self)@.dom().len() == old(self).count as int) by {
                            assert(old(self)@.dom() =~= slots_map(t0).dom());
                        }
                    }
                    self.remove_entry(index, h);
                    proof {
                        lemma_sm(self.table@);
                        assert(self@.dom().len() == self.count as int) by {
                            assert(self@.dom() =~= slots_map(self.table@).dom());
                        }
                    }
                    let crowded = (self.count as u128 + self.deleted_count as u128) * 10
                        >= self.size as u128 * 7;
                    let wasteful = self.deleted_count as u128 * 3 > self.size as u128;
                    proof {
                        assert(old(self)@.dom().finite()) by {
                            assert(old(self)@.dom() =~= slots_map(t0).dom());
                        }
                        assert(self@.dom() =~= old(self)@.dom().remove(key@));
                        assert(self@.dom().len() == old(self)@.dom().len() - 1);
                        assert(self.count as int == old(self)@.dom().len() - 1);
                        assert(self.deleted_count as int == old(self).tombstones() + 1);
                        assert((crowded && wasteful) == Self::rehash_due(
                            old(self).capacity(),
                            old(self)@.dom().len() - 1,
                            old(self).tombstones() + 1,
                        ));
                    }
                    if crowded && wasteful {
                        self.rehash();
                    }
                    return true;
                },
                ProbeStep::Free => {
                    proof {
                        lemma_walk_miss(t0, seed, key@, step as int);
                        lemma_sm(t0);
                        assert(!old(self)@.contains_key(key@)) by {
                            assert(old(self)@.dom() =~= slots_map(t0).dom());
                        }
                        assert(final(self)@ =~= old(self)@.remove(key@));
                        assert(!old(self).order().contains(key@)) by {
                            if old(self).order().contains(key@) {
                                let p = choose|p: int|
                                    0 <= p < old(self).order().len() && old(self).order()[p]
                                        == key@;
                                assert(slots_map(t0).contains_key(old(self).history@[p]@));
                            }
                        }
                    }
                    return false;
                },
                _ => {},
            }
            proof {
                assert(pos(size, ghome, step + 1) == if index as int + 1 < size {
                    index as int + 1
                } else {
                    0int
                });
            }
            index = index + 1;
            if index == self.size {
                index = 0;
            }
            step = step + 1;
        }
        proof {
            lemma_walk_miss(t0, seed, key@, size);
            lemma_sm(t0);
            assert(!old(self)@.contains_key(key@)) by {
                assert(old(self)@.dom() =~= slots_map(t0).dom());
            }
            assert(final(self)@ =~= old(self)@.remove(key@));
            assert(!old(self).order().contains(key@)) by {
                if old(self).order().contains(key@) {
                    let p = choose|p: int|
                        0 <= p < old(self).order().len() && old(self).order()[p] == key@;
                    assert(slots_map(t0).contains_key(old(self).history@[p]@));
                }
            }
        }
        false
    }

    /// Rebuilds the table without tombstones: every occupied slot is placed
    /// anew at the first empty probe position of its key, carrying its value
    /// and order-list handle. The mapping and the order list are unchanged;
    /// only slot positions and the tombstone count are affected.
    pub fn rehash(&mut self)
        requires
            old(self).wf(),
        ensures
            final(self).wf(),
            final(self)@ == old(self)@,
            final(self).order() == old(self).order(),
            final(self).capacity() == old(self).capacity(),
            final(self).tombstones() == 0,
    {
        let ghost t_old = self.table@;
        let ghost sm0 = slots_map(t_old);
        let ghost size = self.size as int;
        let ghost seed = self.seed;
        core::mem::swap(&mut self.table, &mut self.scratch);
        self.count = 0;
        self.deleted_count = 0;
        let mut old_slots: Vec<Slot<V>> = Vec::new();
        core::mem::swap(&mut old_slots, &mut self.scratch);
        proof {
            lemma_all_empty(self.table@);
            lemma_counts(t_old);
            assert(slots_map(self.table@).union_prefer_right(slots_map(old_slots@)) =~= sm0);
        }
        while old_slots.len() > 0
            invariant
                old(self).wf(),
                self.size == old(self).size,
                self.seed == old(self).seed,
                self.history == old(self).history,
                self.scratch@.len() == 0,
                self.table@.len() == self.size,
                size == self.size as int,
                seed == self.seed,
                t_old == old(self).table@,
                sm0 == slots_map(t_old),
                self.size >= 1,
                unique_keys(self.table@),
                unique_keys(old_slots@),
                reach_ok(self.table@, seed),
                num_del(self.table@) == 0,
                self.deleted_count == 0,
                self.count == num_occ(self.table@),
                num_occ(self.table@) + num_occ(old_slots@) == num_occ(t_old),
                slots_map(self.table@).dom().disjoint(slots_map(old_slots@).dom()),
                slots_map(self.table@).union_prefer_right(slots_map(old_slots@)) == sm0,
            decreases old_slots@.len(),
        {
            let ghost rem0 = old_slots@;
            let ghost tp = self.table@;
            let slot = match old_slots.pop() {
                Some(s) => s,
                None => vstd::pervasive::unreached(),
            };
            proof {
                assert(old_slots@ =~= rem0.drop_last());
                assert(unique_keys(old_slots@)) by {
                    assert(forall|i: int| 0 <= i < old_slots@.len() ==> old_slots@[i] == rem0[i]);
                }
            }
            match slot {
                Slot::Occupied(k, v, h) => {
                    proof {
                        assert(rem0[rem0.len() - 1] is Occupied);
                        lemma_sm(rem0);
                        lemma_sm(old_slots@);
                        assert(!slots_map(old_slots@).contains_key(k@)) by {
                            if slots_map(old_slots@).contains_key(k@) {
                                let j = choose|j: int|
                                    0 <= j < old_slots@.len() && (#[trigger] old_slots@[j])
                                        is Occupied && skey(old_slots@[j]) == k@;
                                assert(rem0[j] is Occupied && skey(rem0[j]) == skey(
                                    rem0[rem0.len() - 1],
                                ));
                            }
                        }
                        assert(slots_map(rem0) == slots_map(old_slots@).insert(k@, (v, h)));
                        assert(!slots_map(tp).contains_key(k@)) by {
                            assert(slots_map(rem0).contains_key(k@));
                            assert(slots_map(tp).dom().disjoint(slots_map(rem0).dom()));
                        }
                    }
                    proof {
                        lemma_counts(t_old);
                        lemma_counts(old_slots@);
                        assert(num_occ(rem0) == num_occ(old_slots@) + 1);
                        assert(num_occ(tp) + 1 <= self.size);
                    }
                    let home = self.hash_index(&k);
                    let ghost ghome = spec_home(seed, size, k@);
                    let mut index = home;
                    let mut step: usize = 0;
                    let mut target: Option<usize> = None;
                    while target.is_none() && step < self.size
                        invariant
                            tp == self.table@,
                            self.size >= 1,
                            size == self.size as int,
                            seed == self.seed,
                            home as int == ghome,
                            ghome == spec_home(seed, size, k@),
                            home < self.size,
                            self.table@.len() == self.size,
                            num_del(self.table@) == 0,
                            num_occ(self.table@) + 1 <= self.size,
                            step <= self.size,
                            index as int == pos(size, ghome, step as int),
                            index < self.size,
                            forall|d: int|
                                0 <= d < step ==> !((#[trigger] tp[pos(size, ghome, d)])
                                    is Empty),
                            match target {
                                Some(ti) => ti < self.size && tp[ti as int] is Empty && ti as int
                                    == pos(size, ghome, step as int),
                                None => true,
                            },
                        decreases self.size - step + (if target is None {
                            1int
                        } else {
                            0int
                        }),
                    {
                        match &self.table[index] {
                            Slot::Empty => {
                                target = Some(index);
                            },
                            _ => {
                                proof {
                                    assert(pos(size, ghome, step + 1) == if index as int + 1
                                        < size {
                                        index as int + 1
                                    } else {
                                        0int
                                    });
                                }
                                index = index + 1;
                                if index == self.size {
                                    index = 0;
                                }
                                step = step + 1;
                            },
                        }
                    }
                    let ti = match target {
                        Some(ti) => ti,
                        None => {
                            proof {
                                // all probe positions were non-empty and the
                                // rebuilt table has no tombstones, so it
                                // would have to be entirely occupied
                                assert forall|x: int| 0 <= x < size implies (#[trigger] tp[x])
                                    is Occupied by {
                                    let d = dist(size, ghome, x);
                                    assert(0 <= d < size && pos(size, ghome, d) == x);
                                    assert(!(tp[x] is Empty));
                                    assert(!(tp[x] is Deleted)) by {
                                        if tp[x] is Deleted {
                                            lemma_del_at(tp, x);
                                        }
                                    }
                                }
                                lemma_all_occupied(tp);
                                assert(false);
                            }
                            vstd::pervasive::unreached()
                        },
                    };
                    proof {
                        assert(dist(size, ghome, ti as int) <= step as int);
                        lemma_sm_place(tp, ti as int, k, v, h);
                    }
                    self.table.set(ti, Slot::Occupied(k, v, h));
                    self.count = self.count + 1;
                    proof {
                        let t2 = self.table@;
                        assert(slots_map(t2) == slots_map(tp).insert(k@, (v, h)));
                        assert(slots_map(t2).dom().disjoint(slots_map(old_slots@).dom())) by {
                            assert forall|kk: Seq<char>|
                                slots_map(t2).dom().contains(kk) implies !slots_map(
                                old_slots@,
                            ).dom().contains(kk) by {
                                if kk != k@ {
                                    assert(slots_map(tp).dom().contains(kk));
                                    assert(slots_map(rem0).dom().contains(kk) ==> false);
                                    if slots_map(old_slots@).dom().contains(kk) {
                                        assert(slots_map(rem0).contains_key(kk)) by {
                                            lemma_sm(old_slots@);
                                            lemma_sm(rem0);
                                            let j = choose|j: int|
                                                0 <= j < old_slots@.len() && (
                                                #[trigger] old_slots@[j]) is Occupied && skey(
                                                    old_slots@[j],
                                                ) == kk;
                                            assert(rem0[j] is Occupied && skey(rem0[j]) == kk);
                                        }
                                    }
                                }
                            }
                        }
                        assert(slots_map(t2).union_prefer_right(slots_map(old_slots@)) =~= sm0);
                        // reachability of the fresh placement and of everything
                        // already placed
                        assert forall|ii: int, d: int|
                            0 <= ii < t2.len() && (#[trigger] t2[ii]) is Occupied && 0 <= d < dist(
                                size,
                                spec_home(seed, size, skey(t2[ii])),
                                ii,
                            ) implies !((#[trigger] t2[pos(
                            size,
                            spec_home(seed, size, skey(t2[ii])),
                            d,
                        )]) is Empty) by {
                            let home_i = spec_home(seed, size, skey(t2[ii]));
                            if ii == ti {
                                assert(skey(t2[ii]) == k@);
                                assert(dist(size, home_i, ii) <= step as int);
                                assert(!(tp[pos(size, home_i, d)] is Empty));
                            } else {
                                assert(tp[ii] is Occupied && skey(tp[ii]) == skey(t2[ii]));
                                assert(!(tp[pos(size, home_i, d)] is Empty));
                            }
                        }
                        assert(num_del(t2) == 0) by {
                            lemma_counts(t2);
                            if num_del(t2) != 0 {
                                assert(num_del(t2) > 0);
                                assert(exists|x: int| 0 <= x < t2.len() && (#[trigger] t2[x])
                                    is Deleted) by {
                                    lemma_del_exists(t2);
                                }
                                let x = choose|x: int|
                                    0 <= x < t2.len() && (#[trigger] t2[x]) is Deleted;
                                assert(tp[x] is Deleted);
                                lemma_del_at(tp, x);
                            }
                        }
                    }
                },
                _ => {
                    proof {
                        assert(slots_map(rem0) =~= slots_map(old_slots@));
                        assert(num_occ(rem0) == num_occ(old_slots@));
                        assert(slots_map(self.table@).union_prefer_right(slots_map(old_slots@))
                            =~= sm0);
                    }
                },
            }
        }
        while self.scratch.len() < self.size
            invariant
                old(self).wf(),
                self.size == old(self).size,
                self.seed == old(self).seed,
                self.history == old(self).history,
                self.table@.len() == self.size,
                size == self.size as int,
                seed == self.seed,
                t_old == old(self).table@,
                sm0 == slots_map(t_old),
                self.size >= 1,
                unique_keys(self.table@),
                reach_ok(self.table@, seed),
                num_del(self.table@) == 0,
                self.deleted_count == 0,
                self.count == num_occ(self.table@),
                num_occ(self.table@) == num_occ(t_old),
                slots_map(self.table@) == sm0,
                self.scratch@.len() <= self.size,
                forall|i: int| 0 <= i < self.scratch@.len() ==> (#[trigger] self.scratch@[i])
                    is Empty,
            decreases self.size - self.scratch@.len(),
        {
            self.scratch.push(Slot::Empty);
        }
        proof {
            let t2 = self.table@;
            assert(final(self)@ =~= old(self)@);
            assert(final(self).order() =~= old(self).order());
            lemma_sm(t2);
            lemma_sm(t_old);
            // the order list is unchanged and the model map is unchanged, so
            // the synchronisation clauses carry over
            assert forall|ii: int|
                0 <= ii < t2.len() && (#[trigger] t2[ii]) is Occupied implies exists|p: int|
                0 <= p < self.history@.len() && (#[trigger] self.history@[p])@ == skey(
                    t2[ii],
                ) by {
                assert(slots_map(t2).contains_key(skey(t2[ii])));
                assert(slots_map(t_old).contains_key(skey(t2[ii])));
                let j = choose|j: int|
                    0 <= j < t_old.len() && (#[trigger] t_old[j]) is Occupied && skey(t_old[j])
                        == skey(t2[ii]);
                let p = choose|p: int|
                    0 <= p < old(self).history@.len() && (#[trigger] old(self).history@[p])@
                        == skey(t_old[j]);
                assert(self.history@[p]@ == skey(t2[ii]));
            }
        }
    }

    /// Returns the oldest entry: the key least recently inserted or updated,
    /// together with a borrow of its value. `None` exactly when the table is
    /// empty.
    pub fn get_first(&self) -> (r: Option<(String, &V)>)
        requires
            self.wf(),
        ensures
            match r {
                None => self.order().len() == 0,
                Some((k, v)) => self.order().len() > 0 && k@ == self.order()[0]
                    && self@.contains_key(k@) && *v == self@[k@],
            },
    {
        let k: String = match self.history.front() {
            None => {
                return None;
            },
            Some(kref) => kref.clone(),
        };
        proof {
            assert(self.history@[0] == k);
            assert(slots_map(self.table@).contains_key(k@));
            assert(self@.contains_key(k@)) by {
                assert(self@.dom() =~= slots_map(self.table@).dom());
            }
        }
        match self.get(&k) {
            Some(v) => Some((k, v)),
            None => {
                proof {
                    assert(false);
                }
                None
            },
        }
    }

    /// Returns the newest entry: the key most recently inserted or updated,
    /// together with a borrow of its value. `None` exactly when the table is
    /// empty.
    pub fn get_last(&self) -> (r: Option<(String, &V)>)
        requires
            self.wf(),
        ensures
            match r {
                None => self.order().len() == 0,
                Some((k, v)) => self.order().len() > 0 && k@ == self.order()[self.order().len()
                    - 1] && self@.contains_key(k@) && *v == self@[k@],
            },
    {
        let k: String = match self.history.back() {
            None => {
                return None;
            },
            Some(kref) => kref.clone(),
        };
        proof {
            assert(self.history@[self.history@.len() - 1] == k);
            assert(slots_map(self.table@).contains_key(k@));
            assert(self@.contains_key(k@)) by {
                assert(self@.dom() =~= slots_map(self.table@).dom());
            }
        }
        match self.get(&k) {
            Some(v) => Some((k, v)),
            None => {
                proof {
                    assert(false);
                }
                None
            },
        }
    }

    /// Whether the table holds no entry.
    pub fn is_empty(&self) -> (r: bool)
        requires
            self.wf(),
        ensures
            r == (self@.dom().len() == 0),
    {
        proof {
            lemma_sm(self.table@);
            assert(self@.dom() =~= slots_map(self.table@).dom());
        }
        self.count == 0
    }
}

impl<V> FixedHashTable<V> {
    /// The table's map has a finite domain (it lives in at most `capacity`
    /// slots), so callers may reason about `self@.dom().len()`.
    pub proof fn lemma_dom_finite(&self)
        requires
            self.wf(),
        ensures
            self@.dom().finite(),
            self@.dom().len() <= self.capacity(),
    {
        lemma_sm(self.table@);
        lemma_counts(self.table@);
        assert(self@.dom() =~= slots_map(self.table@).dom());
    }

    /// The order sequence holds exactly the live keys, each once: it has the
    /// domain's cardinality, every entry is a live key, no key repeats, and
    /// every live key occurs.
    pub proof fn lemma_order_matches_dom(&self)
        requires
            self.wf(),
        ensures
            self.order().len() == self@.dom().len(),
            forall|p: int|
                0 <= p < self.order().len() ==> self@.contains_key(#[trigger] self.order()[p]),
            forall|p: int, q: int|
                0 <= p < self.order().len() && 0 <= q < self.order().len() && p != q
                    ==> self.order()[p] != self.order()[q],
            forall|k: Seq<char>| #[trigger] self@.contains_key(k) ==> self.order().contains(k),
    {
        lemma_sm(self.table@);
        assert(self@.dom() =~= slots_map(self.table@).dom());
        assert forall|k: Seq<char>| #[trigger]
            self@.contains_key(k) implies self.order().contains(k) by {
            let i = choose|i: int|
                0 <= i < self.table@.len() && (#[trigger] self.table@[i]) is Occupied && skey(
                    self.table@[i],
                ) == k;
            let p = choose|p: int|
                0 <= p < self.history@.len() && (#[trigger] self.history@[p])@ == skey(
                    self.table@[i],
                );
            assert(self.order()[p] == k);
        }
    }
}

/// Tombstone-reuse law: deleting a key and then inserting a different key —
/// in particular one whose probe walk passes through the deleted key's
/// tombstone — leaves the new key present with its value. `delete`, `insert`
/// and `get` promise exactly these map transitions of `self@`, so the
/// executable table obeys this for every pair of distinct keys.
pub proof fn lemma_tombstone_reuse<V>(m: Map<Seq<char>, V>, k1: Seq<char>, k2: Seq<char>, v: V)
    requires
        k1 != k2,
    ensures
        m.remove(k1).insert(k2, v).contains_key(k2),
        m.remove(k1).insert(k2, v)[k2] == v,
        !m.remove(k1).insert(k2, v).contains_key(k1),
{
}

} // verus!
