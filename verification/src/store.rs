use vstd::prelude::*;
use crate::record::Record;

verus! {

/// Signals that `get`, `update` or `delete` targeted a name absent from the
/// store. The store has no other failure mode.
#[derive(Debug, Clone, Copy, PartialEq, Eq, Structural)]
pub enum StoreError {
    NotFound,
}

/// One entry of the store: the key under which a record is filed, and the
/// record itself. The key is the record's name at insertion; `update` keeps
/// the key even when the replacement record carries another name.
struct Slot {
    key: String,
    record: Record,
}

/// A mapping from name to record with five atomic operations. All access to
/// the mapping goes through them, and every record handed out is a copy, so
/// no caller ever holds a reference into the store's contents.
pub struct Store {
    slots: Vec<Slot>,
}

/// The mathematical contents of a sequence of slots, read as repeated map
/// insertion: a later slot would win, though a well-formed store never files
/// two slots under one key.
spec fn map_of(slots: Seq<Slot>) -> Map<Seq<char>, Record>
    decreases slots.len(),
{
    if slots.len() == 0 {
        Map::empty()
    } else {
        map_of(slots.drop_last()).insert(slots.last().key@, slots.last().record)
    }
}

/// No two slots share a key.
spec fn keys_distinct(slots: Seq<Slot>) -> bool {
    forall|i: int, j: int| 0 <= i < j < slots.len() ==> slots[i].key@ != slots[j].key@
}

impl View for Store {
    type V = Map<Seq<char>, Record>;

    closed spec fn view(&self) -> Map<Seq<char>, Record> {
        map_of(self.slots@)
    }
}

proof fn lemma_map_of_contains(slots: Seq<Slot>, k: Seq<char>)
    ensures
        map_of(slots).contains_key(k) <==> exists|i: int|
            0 <= i < slots.len() && slots[i].key@ == k,
    decreases slots.len(),
{
    if slots.len() > 0 {
        lemma_map_of_contains(slots.drop_last(), k);
        if map_of(slots).contains_key(k) {
            if slots.last().key@ == k {
                assert(slots[slots.len() - 1].key@ == k);
            } else {
                let i = choose|i: int|
                    0 <= i < slots.drop_last().len() && slots.drop_last()[i].key@ == k;
                assert(slots.drop_last()[i] == slots[i]);
                assert(slots[i].key@ == k);
            }
        }
        if exists|i: int| 0 <= i < slots.len() && slots[i].key@ == k {
            let i = choose|i: int| 0 <= i < slots.len() && slots[i].key@ == k;
            if i < slots.len() - 1 {
                assert(slots.drop_last()[i] == slots[i]);
                assert(slots.drop_last()[i].key@ == k);
            }
        }
    }
}

proof fn lemma_map_of_finite(slots: Seq<Slot>)
    ensures
        map_of(slots).dom().finite(),
    decreases slots.len(),
{
    if slots.len() > 0 {
        lemma_map_of_finite(slots.drop_last());
    }
}

proof fn lemma_keys_distinct_drop_last(slots: Seq<Slot>)
    requires
        slots.len() > 0,
        keys_distinct(slots),
    ensures
        keys_distinct(slots.drop_last()),
{
    assert forall|i: int, j: int|
        0 <= i < j < slots.drop_last().len() implies slots.drop_last()[i].key@
        != slots.drop_last()[j].key@ by {
        assert(slots.drop_last()[i] == slots[i]);
        assert(slots.drop_last()[j] == slots[j]);
    }
}

proof fn lemma_map_of_index(slots: Seq<Slot>, i: int)
    requires
        keys_distinct(slots),
        0 <= i < slots.len(),
    ensures
        map_of(slots).contains_key(slots[i].key@),
        map_of(slots)[slots[i].key@] == slots[i].record,
    decreases slots.len(),
{
    if i < slots.len() - 1 {
        lemma_keys_distinct_drop_last(slots);
        lemma_map_of_index(slots.drop_last(), i);
        assert(slots.drop_last()[i] == slots[i]);
        assert(slots[i].key@ != slots.last().key@);
    }
}

proof fn lemma_map_of_push(slots: Seq<Slot>, slot: Slot)
    ensures
        map_of(slots.push(slot)) == map_of(slots).insert(slot.key@, slot.record),
{
    assert(slots.push(slot).drop_last() =~= slots);
    assert(slots.push(slot).last() == slot);
}

proof fn lemma_keys_distinct_push_fresh(slots: Seq<Slot>, slot: Slot)
    requires
        keys_distinct(slots),
        forall|j: int| 0 <= j < slots.len() ==> slots[j].key@ != slot.key@,
    ensures
        keys_distinct(slots.push(slot)),
{
    assert forall|i: int, j: int|
        0 <= i < j < slots.push(slot).len() implies slots.push(slot)[i].key@
        != slots.push(slot)[j].key@ by {
        assert(slots.push(slot)[i] == slots[i]);
        if j < slots.len() {
            assert(slots.push(slot)[j] == slots[j]);
        } else {
            assert(slots.push(slot)[j] == slot);
        }
    }
}

proof fn lemma_keys_distinct_remove(slots: Seq<Slot>, i: int)
    requires
        keys_distinct(slots),
        0 <= i < slots.len(),
    ensures
        keys_distinct(slots.remove(i)),
{
    slots.remove_ensures(i);
    assert forall|p: int, q: int|
        0 <= p < q < slots.remove(i).len() implies slots.remove(i)[p].key@
        != slots.remove(i)[q].key@ by {
        let p0 = if p < i { p } else { p + 1 };
        let q0 = if q < i { q } else { q + 1 };
        assert(slots.remove(i)[p] == slots[p0]);
        assert(slots.remove(i)[q] == slots[q0]);
        assert(0 <= p0 < q0 < slots.len());
    }
}

proof fn lemma_remove_frees_key(slots: Seq<Slot>, i: int)
    requires
        keys_distinct(slots),
        0 <= i < slots.len(),
    ensures
        forall|j: int|
            0 <= j < slots.remove(i).len() ==> slots.remove(i)[j].key@ != slots[i].key@,
{
    slots.remove_ensures(i);
    assert forall|j: int|
        0 <= j < slots.remove(i).len() implies slots.remove(i)[j].key@ != slots[i].key@ by {
        let j0 = if j < i { j } else { j + 1 };
        assert(slots.remove(i)[j] == slots[j0]);
        assert(j0 != i);
        if j0 < i {
            assert(slots[j0].key@ != slots[i].key@);
        } else {
            assert(slots[i].key@ != slots[j0].key@);
        }
    }
}

proof fn lemma_map_of_remove(slots: Seq<Slot>, i: int)
    requires
        keys_distinct(slots),
        0 <= i < slots.len(),
    ensures
        map_of(slots.remove(i)) == map_of(slots).remove(slots[i].key@),
    decreases slots.len(),
{
    let k = slots[i].key@;
    slots.remove_ensures(i);
    if i == slots.len() - 1 {
        assert(slots.remove(i) =~= slots.drop_last());
        lemma_map_of_contains(slots.drop_last(), k);
        if map_of(slots.drop_last()).contains_key(k) {
            let j = choose|j: int|
                0 <= j < slots.drop_last().len() && slots.drop_last()[j].key@ == k;
            assert(slots.drop_last()[j] == slots[j]);
            assert(false);
        }
        assert(map_of(slots).remove(k) =~= map_of(slots.drop_last()));
    } else {
        lemma_keys_distinct_drop_last(slots);
        assert(slots.drop_last()[i] == slots[i]);
        lemma_map_of_remove(slots.drop_last(), i);
        slots.drop_last().remove_ensures(i);
        assert(slots.remove(i).drop_last() =~= slots.drop_last().remove(i));
        assert(slots.remove(i).last() == slots[slots.len() - 2 + 1]);
        assert(slots.remove(i).last() == slots.last());
        let lk = slots.last().key@;
        assert(k != lk);
        assert(map_of(slots.remove(i)) == map_of(slots.drop_last()).remove(k).insert(
            lk,
            slots.last().record,
        ));
        assert(map_of(slots).remove(k) =~= map_of(slots.drop_last()).remove(k).insert(
            lk,
            slots.last().record,
        ));
    }
}

impl Store {
    /// Well-formedness: no two entries share a key. `new` establishes it and
    /// every operation preserves it.
    pub closed spec fn wf(&self) -> bool {
        keys_distinct(self.slots@)
    }

    /// Creates the store empty; it then lives as long as its owner keeps it.
    pub fn new() -> (store: Store)
        ensures
            store.wf(),
            store@ == Map::<Seq<char>, Record>::empty(),
    {
        Store { slots: Vec::new() }
    }

    /// The index of the entry filed under `name`, if any.
    fn position_of(&self, name: &String) -> (result: Option<usize>)
        ensures
            match result {
                Some(i) => i < self.slots@.len() && self.slots@[i as int].key@ == name@,
                None => forall|j: int| 0 <= j < self.slots@.len() ==> self.slots@[j].key@ != name@,
            },
    {
        let mut i: usize = 0;
        while i < self.slots.len()
            invariant
                i <= self.slots@.len(),
                forall|j: int| 0 <= j < i ==> self.slots@[j].key@ != name@,
            decreases self.slots@.len() - i,
        {
            if self.slots[i].key == *name {
                return Some(i);
            }
            i += 1;
        }
        None
    }

    /// Upsert: files `record` under its own name, overwriting any entry with
    /// that name. Never fails, and signals no conflict on overwrite; the
    /// caller gets back a copy of exactly what was stored.
    pub fn insert_or_replace(&mut self, record: Record) -> (stored: Record)
        requires
            old(self).wf(),
        ensures
            final(self).wf(),
            final(self)@ == old(self)@.insert(record.name@, record),
            stored == record,
    {
        let stored = record.clone();
        let key = record.name.clone();
        match self.position_of(&record.name) {
            Some(i) => {
                proof {
                    lemma_map_of_remove(self.slots@, i as int);
                    lemma_keys_distinct_remove(self.slots@, i as int);
                    lemma_remove_frees_key(self.slots@, i as int);
                }
                let _evicted = self.slots.remove(i);
                proof {
                    lemma_map_of_push(self.slots@, Slot { key, record });
                    lemma_keys_distinct_push_fresh(self.slots@, Slot { key, record });
                }
                self.slots.push(Slot { key, record });
                proof {
                    assert(final(self)@ =~= old(self)@.insert(record.name@, record));
                }
            },
            None => {
                proof {
                    lemma_map_of_push(self.slots@, Slot { key, record });
                    lemma_keys_distinct_push_fresh(self.slots@, Slot { key, record });
                }
                self.slots.push(Slot { key, record });
            },
        }
        stored
    }

    /// A snapshot of all current records, in unspecified order: some
    /// duplicate-free key sequence covering exactly the store's names indexes
    /// the result, so the snapshot holds each stored record exactly once.
    pub fn list(&self) -> (records: Vec<Record>)
        requires
            self.wf(),
        ensures
            records@.len() == self@.len(),
            records@.to_set() == self@.values(),
            exists|ks: Seq<Seq<char>>|
                {
                    &&& ks.no_duplicates()
                    &&& ks.len() == records@.len()
                    &&& ks.to_set() == self@.dom()
                    &&& forall|i: int|
                        0 <= i < ks.len() ==> self@.contains_key(#[trigger] ks[i])
                            && records@[i] == self@[ks[i]]
                },
    {
        let mut records: Vec<Record> = Vec::new();
        let mut i: usize = 0;
        while i < self.slots.len()
            invariant
                i <= self.slots@.len(),
                records@.len() == i,
                forall|j: int| 0 <= j < i ==> records@[j] == self.slots@[j].record,
            decreases self.slots@.len() - i,
        {
            records.push(self.slots[i].record.clone());
            i += 1;
        }
        proof {
            self.lemma_list_contract(records@);
        }
        records
    }

    proof fn lemma_list_contract(&self, records: Seq<Record>)
        requires
            self.wf(),
            records.len() == self.slots@.len(),
            forall|j: int| 0 <= j < records.len() ==> records[j] == self.slots@[j].record,
        ensures
            records.len() == self@.len(),
            records.to_set() == self@.values(),
            exists|ks: Seq<Seq<char>>|
                {
                    &&& ks.no_duplicates()
                    &&& ks.len() == records.len()
                    &&& ks.to_set() == self@.dom()
                    &&& forall|i: int|
                        0 <= i < ks.len() ==> self@.contains_key(#[trigger] ks[i])
                            && records[i] == self@[ks[i]]
                },
    {
        let slots = self.slots@;
        let ks = slots.map_values(|slot: Slot| slot.key@);
        assert forall|i: int, j: int| 0 <= i < j < ks.len() implies ks[i] != ks[j] by {
            assert(ks[i] == slots[i].key@);
            assert(ks[j] == slots[j].key@);
        }
        assert(ks.no_duplicates());
        assert forall|k: Seq<char>| ks.to_set().contains(k) <==> self@.dom().contains(k) by {
            lemma_map_of_contains(slots, k);
            if ks.to_set().contains(k) {
                let i = choose|i: int| 0 <= i < ks.len() && ks[i] == k;
                assert(slots[i].key@ == k);
            }
            if self@.dom().contains(k) {
                let i = choose|i: int| 0 <= i < slots.len() && slots[i].key@ == k;
                assert(ks[i] == k);
                assert(ks.to_set().contains(k));
            }
        }
        assert(ks.to_set() =~= self@.dom());
        assert forall|i: int|
            0 <= i < ks.len() implies self@.contains_key(#[trigger] ks[i]) && records[i]
            == self@[ks[i]] by {
            lemma_map_of_index(slots, i);
        }
        lemma_map_of_finite(slots);
        ks.unique_seq_to_set();
        assert(records.len() == self@.len());
        assert forall|r: Record| records.to_set().contains(r) <==> self@.values().contains(
            r,
        ) by {
            if records.to_set().contains(r) {
                let i = choose|i: int| 0 <= i < records.len() && records[i] == r;
                lemma_map_of_index(slots, i);
                assert(self@.contains_pair(slots[i].key@, r));
            }
            if self@.values().contains(r) {
                let k = choose|k: Seq<char>| self@.contains_key(k) && self@[k] == r;
                lemma_map_of_contains(slots, k);
                let i = choose|i: int| 0 <= i < slots.len() && slots[i].key@ == k;
                lemma_map_of_index(slots, i);
                assert(records[i] == r);
                assert(records.to_set().contains(r));
            }
        }
        assert(records.to_set() =~= self@.values());
    }

    /// Looks `name` up without mutating anything: a copy of the matching
    /// record if present, `NotFound` if and only if the name is absent.
    pub fn get(&self, name: &String) -> (result: Result<Record, StoreError>)
        requires
            self.wf(),
        ensures
            match result {
                Ok(record) => self@.contains_key(name@) && record == self@[name@],
                Err(e) => e == StoreError::NotFound && !self@.contains_key(name@),
            },
    {
        proof {
            lemma_map_of_contains(self.slots@, name@);
        }
        match self.position_of(name) {
            Some(i) => {
                proof {
                    lemma_map_of_index(self.slots@, i as int);
                }
                Ok(self.slots[i].record.clone())
            },
            None => Err(StoreError::NotFound),
        }
    }

    /// Replaces the value filed under `name` with `new_record`, keeping the
    /// key `name` even if `new_record.name` differs: a replace-at-key, not a
    /// rename. Returns a copy of the new value; if `name` is absent it
    /// signals `NotFound` and leaves the store unchanged.
    pub fn update(&mut self, name: &String, new_record: Record) -> (result: Result<
        Record,
        StoreError,
    >)
        requires
            old(self).wf(),
        ensures
            final(self).wf(),
            match result {
                Ok(record) => {
                    &&& old(self)@.contains_key(name@)
                    &&& record == new_record
                    &&& final(self)@ == old(self)@.insert(name@, new_record)
                },
                Err(e) => {
                    &&& e == StoreError::NotFound
                    &&& !old(self)@.contains_key(name@)
                    &&& final(self)@ == old(self)@
                },
            },
    {
        proof {
            lemma_map_of_contains(self.slots@, name@);
        }
        match self.position_of(name) {
            Some(i) => {
                proof {
                    lemma_map_of_contains(self.slots@, name@);
                    lemma_map_of_remove(self.slots@, i as int);
                    lemma_keys_distinct_remove(self.slots@, i as int);
                    lemma_remove_frees_key(self.slots@, i as int);
                }
                let updated = new_record.clone();
                let evicted = self.slots.remove(i);
                proof {
                    lemma_map_of_push(self.slots@, Slot { key: evicted.key, record: new_record });
                    lemma_keys_distinct_push_fresh(
                        self.slots@,
                        Slot { key: evicted.key, record: new_record },
                    );
                }
                self.slots.push(Slot { key: evicted.key, record: new_record });
                proof {
                    assert(final(self)@ =~= old(self)@.insert(name@, new_record));
                }
                Ok(updated)
            },
            None => Err(StoreError::NotFound),
        }
    }

    /// Removes the entry filed under `name` if present; signals `NotFound`
    /// if and only if the name is absent, with no side effect on that path.
    pub fn delete(&mut self, name: &String) -> (result: Result<(), StoreError>)
        requires
            old(self).wf(),
        ensures
            final(self).wf(),
            match result {
                Ok(()) => {
                    &&& old(self)@.contains_key(name@)
                    &&& final(self)@ == old(self)@.remove(name@)
                },
                Err(e) => {
                    &&& e == StoreError::NotFound
                    &&& !old(self)@.contains_key(name@)
                    &&& final(self)@ == old(self)@
                },
            },
    {
        proof {
            lemma_map_of_contains(self.slots@, name@);
        }
        match self.position_of(name) {
            Some(i) => {
                proof {
                    lemma_map_of_remove(self.slots@, i as int);
                    lemma_keys_distinct_remove(self.slots@, i as int);
                }
                let _removed = self.slots.remove(i);
                Ok(())
            },
            None => Err(StoreError::NotFound),
        }
    }
}

} // verus!
