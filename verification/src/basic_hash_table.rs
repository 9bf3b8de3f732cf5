//! A plainer fixed-capacity open-addressed hash table: linear probing and
//! tombstones, without the order list or the amortized rehash of
//! [`crate::fixed_hash_table`]. Absence and fullness are signalled through
//! `Result` values.
//!
//! The probe machinery (slots, the model map, the walk lemmas) is shared with
//! the history-keeping table; this table hashes with the fixed seed 0.

use crate::fixed_hash_table::{
    classify, dist, lemma_all_empty, lemma_all_occupied, lemma_occ_at, lemma_sm, lemma_sm_bury,
    lemma_sm_place, lemma_sm_replace, lemma_walk_miss, num_occ, pos, reach_ok, skey, slots_map,
    spec_home, unique_keys, ProbeStep, Slot,
};
use std::collections::hash_map::DefaultHasher;
use std::hash::Hasher;
use vstd::pervasive::VecAdditionalExecFns;
use vstd::prelude::*;
use vstd::std_specs::hash::DefaultHasherAdditionalSpecFns;
use vstd::utf8::encode_utf8;

verus! {

/// Open-addressed `String -> V` map of fixed capacity with linear probing
/// and tombstones.
pub struct FixedHashTable<V> {
    table: Vec<Slot<V>>,
    size: usize,
    count: usize,
}

impl<V> View for FixedHashTable<V> {
    type V = Map<Seq<char>, V>;

    /// The key-to-value map the table holds.
    closed spec fn view(&self) -> Map<Seq<char>, V> {
        slots_map(self.table@).map_values(|p: (V, usize)| p.0)
    }
}

impl<V> FixedHashTable<V> {
    /// The number of slots the table was created with.
    pub closed spec fn capacity(&self) -> int {
        self.size as int
    }

    /// Well-formedness: the slot count and bookkeeping are consistent, keys
    /// are unique, and every occupied slot is reachable from its home index.
    pub closed spec fn wf(&self) -> bool {
        let t = self.table@;
        &&& self.size >= 1
        &&& t.len() == self.size
        &&& self.count == num_occ(t)
        &&& unique_keys(t)
        &&& reach_ok(t, 0u64)
    }

    /// Computes the home index of `key` in a table of `self.size` slots.
    fn hash_index(&self, key: &String) -> (idx: usize)
        requires
            self.size >= 1,
        ensures
            idx as int == spec_home(0u64, self.size as int, key@),
            idx < self.size,
    {
        let mut hasher = DefaultHasher::new();
        let seed: u64 = 0;
        let mut sb: Vec<u8> = Vec::new();
        sb.push(seed as u8);
        sb.push((seed >> 8u64) as u8);
        sb.push((seed >> 16u64) as u8);
        sb.push((seed >> 24u64) as u8);
        sb.push((seed >> 32u64) as u8);
        sb.push((seed >> 40u64) as u8);
        sb.push((seed >> 48u64) as u8);
        sb.push((seed >> 56u64) as u8);
        proof {
            assert(sb@ =~= crate::fixed_hash_table::seed_bytes(0u64));
        }
        hasher.write(sb.as_slice());
        hasher.write(key.as_str().as_bytes());
        proof {
            assert(hasher@ =~= seq![
                crate::fixed_hash_table::seed_bytes(0u64),
                encode_utf8(key@),
            ]);
        }
        let h = hasher.finish();
        let m = h % (self.size as u64);
        proof {
            assert(m < self.size as u64);
            assert(m as int == crate::fixed_hash_table::spec_hash(0u64, key@) as int
                % self.size as int);
        }
        m as usize
    }

    /// Creates a table of `size` slots, all never occupied.
    pub fn new(size: usize) -> (t: Self)
        requires
            1 <= size,
        ensures
            t.wf(),
            t@ == Map::<Seq<char>, V>::empty(),
            t.capacity() == size,
    {
        let mut table: Vec<Slot<V>> = Vec::new();
        let mut i: usize = 0;
        while i < size
            invariant
                i <= size,
                table@.len() == i,
                forall|j: int| 0 <= j < i ==> (#[trigger] table@[j]) is Empty,
            decreases size - i,
        {
            table.push(Slot::Empty);
            i = i + 1;
        }
        let t = Self { table, size, count: 0 };
        proof {
            lemma_all_empty(t.table@);
            assert(t@ =~= Map::<Seq<char>, V>::empty());
        }
        t
    }

    /// Inserts `key` with `value`, or updates the key's value if present.
    /// Fails without changing anything when the table is already full.
    pub fn insert(&mut self, key: String, value: V) -> (r: Result<(), &'static str>)
        requires
            old(self).wf(),
        ensures
            final(self).wf(),
            final(self).capacity() == old(self).capacity(),
            r is Ok <==> old(self)@.dom().len() < old(self).capacity(),
            r is Err ==> *final(self) == *old(self),
            r matches Err(m) ==> m@ == "Hash table is full"@,
            r is Ok ==> final(self)@ == old(self)@.insert(key@, value),
    {
        proof {
            lemma_sm(self.table@);
            assert(self@.dom() =~= slots_map(self.table@).dom());
        }
        if self.count >= self.size {
            return Err("Hash table is full");
        }
        let ghost t0 = self.table@;
        let ghost size = self.size as int;
        let home = self.hash_index(&key);
        let ghost ghome = spec_home(0u64, size, key@);
        let mut index = home;
        let mut step: usize = 0;
        let mut tomb: Option<usize> = None;
        while step < self.size
            invariant
                *self == *old(self),
                self.wf(),
                self.count < self.size,
                old(self)@.dom().len() == old(self).count as int,
                t0 == self.table@,
                home as int == ghome,
                ghome == spec_home(0u64, size, key@),
                home < self.size,
                size == self.size as int,
                step <= self.size,
                index as int == pos(size, ghome, step as int),
                index < self.size,
                forall|d: int|
                    0 <= d < step ==> !((#[trigger] t0[pos(size, ghome, d)]) is Empty) && !(
                    t0[pos(size, ghome, d)] is Occupied && skey(t0[pos(size, ghome, d)]) == key@),
                match tomb {
                    Some(ti) => ti < self.size && t0[ti as int] is Deleted && exists|d: int|
                        0 <= d < step && ti as int == pos(size, ghome, d),
                    None => forall|d: int|
                        0 <= d < step ==> !((#[trigger] t0[pos(size, ghome, d)]) is Deleted),
                },
            decreases self.size - step,
        {
            match classify(&self.table[index], &key) {
                ProbeStep::Matched(_h) => {
                    proof {
                        lemma_sm(t0);
                        let kk = t0[index as int]->Occupied_0;
                        lemma_sm_replace(t0, index as int, kk, value, 0usize);
                    }
                    self.update_slot(index, key, value);
                    return Ok(());
                },
                ProbeStep::Free => {
                    proof {
                        lemma_walk_miss(t0, 0u64, key@, step as int);
                        lemma_sm(t0);
                        assert(!self@.contains_key(key@)) by {
                            assert(self@.dom() =~= slots_map(t0).dom());
                        }
                    }
                    match tomb {
                        Some(ti) => {
                            proof {
                                let d0 = choose|d: int|
                                    0 <= d < step && ti as int == pos(size, ghome, d);
                                assert(dist(size, ghome, ti as int) == d0);
                            }
                            self.place_at(ti, key, value);
                        },
                        None => {
                            proof {
                                assert(dist(size, ghome, index as int) == step as int);
                            }
                            self.place_at(index, key, value);
                        },
                    }
                    return Ok(());
                },
                ProbeStep::Tombstone => {
                    if tomb.is_none() {
                        tomb = Some(index);
                    }
                },
                ProbeStep::Miss => {},
            }
            proof {
                assert(pos(size, ghome, step + 1) == if index as int + 1 < size {
                    index as int + 1
                } else {
                    0int
                });
            }
            index = index + 1;
            if index == self.size {
                index = 0;
            }
            step = step + 1;
        }
        match tomb {
            Some(ti) => {
                proof {
                    lemma_walk_miss(t0, 0u64, key@, size);
                    lemma_sm(t0);
                    assert(!self@.contains_key(key@)) by {
                        assert(self@.dom() =~= slots_map(t0).dom());
                    }
                    let d0 = choose|d: int| 0 <= d < step && ti as int == pos(size, ghome, d);
                    assert(dist(size, ghome, ti as int) == d0);
                }
                self.place_at(ti, key, value);
                Ok(())
            },
            None => {
                proof {
                    assert forall|x: int| 0 <= x < size implies (#[trigger] t0[x]) is Occupied by {
                        let d = dist(size, ghome, x);
                        assert(0 <= d < size && pos(size, ghome, d) == x);
                    }
                    lemma_all_occupied(t0);
                    assert(false);
                }
                Err("No available slots found")
            },
        }
    }

    /// Overwrites the value in the slot already occupied by `key`.
    fn update_slot(&mut self, idx: usize, key: String, value: V)
        requires
            old(self).wf(),
            idx < old(self).table@.len(),
            old(self).table@[idx as int] is Occupied,
            skey(old(self).table@[idx as int]) == key@,
        ensures
            final(self).wf(),
            final(self)@ == old(self)@.insert(key@, value),
            final(self).capacity() == old(self).capacity(),
    {
        let ghost t0 = self.table@;
        let ghost size = self.size as int;
        self.table.set(idx, Slot::Occupied(key, value, 0));
        proof {
            let t2 = self.table@;
            lemma_sm_replace(t0, idx as int, t2[idx as int]->Occupied_0, value, 0usize);
            assert(final(self)@ =~= old(self)@.insert(key@, value));
            assert forall|ii: int, d: int|
                0 <= ii < t2.len() && (#[trigger] t2[ii]) is Occupied && 0 <= d < dist(
                    size,
                    spec_home(0u64, size, skey(t2[ii])),
                    ii,
                ) implies !((#[trigger] t2[pos(size, spec_home(0u64, size, skey(t2[ii])), d)])
                is Empty) by {
                assert(t0[ii] is Occupied && skey(t0[ii]) == skey(t2[ii]));
                assert(!(t0[pos(size, spec_home(0u64, size, skey(t0[ii])), d)] is Empty));
            }
        }
    }

    /// Places `key` (known to be absent) with `value` into the empty slot or
    /// tombstone at `idx`.
    fn place_at(&mut self, idx: usize, key: String, value: V)
        requires
            old(self).wf(),
            idx < old(self).table@.len(),
            !(old(self).table@[idx as int] is Occupied),
            !old(self)@.contains_key(key@),
            old(self).count < old(self).size,
            forall|d: int|
                0 <= d < dist(
                    old(self).size as int,
                    spec_home(0u64, old(self).size as int, key@),
                    idx as int,
                ) ==> !((#[trigger] old(self).table@[pos(
                    old(self).size as int,
                    spec_home(0u64, old(self).size as int, key@),
                    d,
                )]) is Empty),
        ensures
            final(self).wf(),
            final(self)@ == old(self)@.insert(key@, value),
            final(self).capacity() == old(self).capacity(),
    {
        let ghost t0 = self.table@;
        let ghost size = self.size as int;
        proof {
            lemma_sm(t0);
            assert(!slots_map(t0).contains_key(key@)) by {
                assert(self@.dom() =~= slots_map(t0).dom());
            }
        }
        self.table.set(idx, Slot::Occupied(key, value, 0));
        self.count = self.count + 1;
        proof {
            let t2 = self.table@;
            lemma_sm_place(t0, idx as int, t2[idx as int]->Occupied_0, value, 0usize);
            assert(final(self)@ =~= old(self)@.insert(key@, value));
            assert forall|ii: int, d: int|
                0 <= ii < t2.len() && (#[trigger] t2[ii]) is Occupied && 0 <= d < dist(
                    size,
                    spec_home(0u64, size, skey(t2[ii])),
                    ii,
                ) implies !((#[trigger] t2[pos(size, spec_home(0u64, size, skey(t2[ii])), d)])
                is Empty) by {
                let home_i = spec_home(0u64, size, skey(t2[ii]));
                if ii == idx {
                    assert(skey(t2[ii]) == key@);
                    assert(!(t0[pos(size, home_i, d)] is Empty));
                } else {
                    assert(t0[ii] is Occupied && skey(t0[ii]) == skey(t2[ii]));
                    assert(!(t0[pos(size, home_i, d)] is Empty));
                }
            }
        }
    }

    /// Looks `key` up and borrows its value; `None` exactly when the key is
    /// absent.
    pub fn get(&self, key: &String) -> (r: Option<&V>)
        requires
            self.wf(),
        ensures
            match r {
                Some(v) => self@.contains_key(key@) && *v == self@[key@],
                None => !self@.contains_key(key@),
            },
    {
        let ghost t0 = self.table@;
        let ghost size = self.size as int;
        let home = self.hash_index(key);
        let ghost ghome = spec_home(0u64, size, key@);
        let mut index = home;
        let mut step: usize = 0;
        while step < self.size
            invariant
                self.wf(),
                t0 == self.table@,
                home as int == ghome,
                ghome == spec_home(0u64, size, key@),
                home < self.size,
                size == self.size as int,
                step <= self.size,
                index as int == pos(size, ghome, step as int),
                index < self.size,
                forall|d: int|
                    0 <= d < step ==> !((#[trigger] t0[pos(size, ghome, d)]) is Empty) && !(
                    t0[pos(size, ghome, d)] is Occupied && skey(t0[pos(size, ghome, d)]) == key@),
            decreases self.size - step,
        {
            match &self.table[index] {
                Slot::Occupied(k, v, _) => {
                    if *k == *key {
                        proof {
                            lemma_sm(t0);
                            assert(self@[key@] == slots_map(t0)[key@].0);
                        }
                        return Some(v);
                    }
                },
                Slot::Empty => {
                    proof {
                        lemma_walk_miss(t0, 0u64, key@, step as int);
                        assert(!self@.contains_key(key@)) by {
                            assert(self@.dom() =~= slots_map(t0).dom());
                        }
                    }
                    return None;
                },
                Slot::Deleted => {},
            }
            proof {
                assert(pos(size, ghome, step + 1) == if index as int + 1 < size {
                    index as int + 1
                } else {
                    0int
                });
            }
            index = index + 1;
            if index == self.size {
                index = 0;
            }
            step = step + 1;
        }
        proof {
            lemma_walk_miss(t0, 0u64, key@, size);
            assert(!self@.contains_key(key@)) by {
                assert(self@.dom() =~= slots_map(t0).dom());
            }
        }
        None
    }

    /// Deletes `key`, leaving a tombstone. Fails without changing anything
    /// when the key is absent.
    pub fn delete(&mut self, key: &String) -> (r: Result<(), &'static str>)
        requires
            old(self).wf(),
        ensures
            final(self).wf(),
            final(self).capacity() == old(self).capacity(),
            r is Ok <==> old(self)@.contains_key(key@),
            r is Err ==> *final(self) == *old(self),
            r matches Err(m) ==> m@ == "Key not found"@,
            final(self)@ == old(self)@.remove(key@),
    {
        let ghost t0 = self.table@;
        let ghost size = self.size as int;
        let home = self.hash_index(key);
        let ghost ghome = spec_home(0u64, size, key@);
        let mut index = home;
        let mut step: usize = 0;
        while step < self.size
            invariant
                *self == *old(self),
                self.wf(),
                t0 == self.table@,
                home as int == ghome,
                ghome == spec_home(0u64, size, key@),
                home < self.size,
                size == self.size as int,
                step <= self.size,
                index as int == pos(size, ghome, step as int),
                index < self.size,
                forall|d: int|
                    0 <= d < step ==> !((#[trigger] t0[pos(size, ghome, d)]) is Empty) && !(
                    t0[pos(size, ghome, d)] is Occupied && skey(t0[pos(size, ghome, d)]) == key@),
            decreases self.size - step,
        {
            match classify(&self.table[index], key) {
                ProbeStep::Matched(_h) => {
                    proof {
                        lemma_sm(t0);
                        assert(old(self)@.contains_key(key@)) by {
                            assert(old(self)@.dom() =~= slots_map(t0).dom());
                        }
                        lemma_occ_at(t0, index as int);
                    }
                    self.table.set(index, Slot::Deleted);
                    self.count = self.count - 1;
                    proof {
                        let t2 = self.table@;
                        lemma_sm_bury(t0, index as int);
                        assert(final(self)@ =~= old(self)@.remove(key@));
                        assert forall|ii: int, d: int|
                            0 <= ii < t2.len() && (#[trigger] t2[ii]) is Occupied && 0 <= d < dist(
                                size,
                                spec_home(0u64, size, skey(t2[ii])),
                                ii,
                            ) implies !((#[trigger] t2[pos(
                            size,
                            spec_home(0u64, size, skey(t2[ii])),
                            d,
                        )]) is Empty) by {
                            assert(t0[ii] is Occupied && skey(t0[ii]) == skey(t2[ii]));
                            assert(!(t0[pos(size, spec_home(0u64, size, skey(t0[ii])), d)]
                                is Empty));
                        }
                    }
                    return Ok(());
                },
                ProbeStep::Free => {
                    proof {
                        lemma_walk_miss(t0, 0u64, key@, step as int);
                        lemma_sm(t0);
                        assert(!old(self)@.contains_key(key@)) by {
                            assert(old(self)@.dom() =~= slots_map(t0).dom());
                        }
                        assert(final(self)@ =~= old(self)@.remove(key@));
                    }
                    return Err("Key not found");
                },
                _ => {},
            }
            proof {
                assert(pos(size, ghome, step + 1) == if index as int + 1 < size {
                    index as int + 1
                } else {
                    0int
                });
            }
            index = index + 1;
            if index == self.size {
                index = 0;
            }
            step = step + 1;
        }
        proof {
            lemma_walk_miss(t0, 0u64, key@, size);
            lemma_sm(t0);
            assert(!old(self)@.contains_key(key@)) by {
                assert(old(self)@.dom() =~= slots_map(t0).dom());
            }
            assert(final(self)@ =~= old(self)@.remove(key@));
        }
        Err("Key not found")
    }
}

impl<V> FixedHashTable<V> {
    /// The table's map has a finite domain (it lives in at most `capacity`
    /// slots), so callers may reason about `self@.dom().len()`.
    pub proof fn lemma_dom_finite(&self)
        requires
            self.wf(),
        ensures
            self@.dom().finite(),
            self@.dom().len() <= self.capacity(),
    {
        lemma_sm(self.table@);
        crate::fixed_hash_table::lemma_counts(self.table@);
        assert(self@.dom() =~= slots_map(self.table@).dom());
    }
}

} // verus!
