use vstd::prelude::*;
use crate::record::Record;

verus! {

/// The contents of a store after `insert_or_replace` of each record of
/// `records` in order, starting from contents `m`: by that operation's
/// contract, each insertion files the record under its own name.
pub open spec fn insert_all(m: Map<Seq<char>, Record>, records: Seq<Record>) -> Map<
    Seq<char>,
    Record,
>
    decreases records.len(),
{
    if records.len() == 0 {
        m
    } else {
        insert_all(m, records.drop_last()).insert(records.last().name@, records.last())
    }
}

/// No two of the records carry the same name.
pub open spec fn distinct_names(records: Seq<Record>) -> bool {
    forall|i: int, j: int| 0 <= i < j < records.len() ==> records[i].name@ != records[j].name@
}

/// The names of the records, in order.
pub open spec fn names_of(records: Seq<Record>) -> Seq<Seq<char>> {
    records.map_values(|r: Record| r.name@)
}

/// Inserting a record and then getting its name finds that record: after
/// `insert_or_replace(record)` on a store with contents `m`, the contents
/// hold `record.name`, and `get` on it returns a record equal to `record`.
pub proof fn lemma_insert_then_get(m: Map<Seq<char>, Record>, record: Record)
    ensures
        m.insert(record.name@, record).contains_key(record.name@),
        m.insert(record.name@, record)[record.name@] == record,
{
}

/// `insert_or_replace` is an upsert: two insertions under one name leave the
/// store exactly as the second alone would, so the second value replaces the
/// first, no duplicate entry arises, and no conflict is signalled.
pub proof fn lemma_upsert(m: Map<Seq<char>, Record>, first: Record, second: Record)
    requires
        first.name@ == second.name@,
    ensures
        m.insert(first.name@, first).insert(second.name@, second) == m.insert(
            second.name@,
            second,
        ),
        m.insert(first.name@, first).insert(second.name@, second)[second.name@] == second,
{
    assert(m.insert(first.name@, first).insert(second.name@, second) =~= m.insert(
        second.name@,
        second,
    ));
}

/// Deleting a name and then getting it signals `NotFound`: after a
/// successful `delete(name)` the contents no longer hold `name`.
pub proof fn lemma_delete_then_get(m: Map<Seq<char>, Record>, name: Seq<char>)
    ensures
        !m.remove(name).contains_key(name),
{
}

/// Filling an empty store with records of pairwise distinct names loses no
/// update and invents none: every record is found under its own name, the
/// names inserted are exactly the stored keys, there are exactly as many
/// entries as records, and the set of stored values is exactly the set of
/// the records. With the contract of `list`, listing then yields a sequence
/// whose element set is the set of the inserted records, whatever its order.
/// Since writers are serialized, this is also the effect of concurrent
/// insertions with distinct names, taken in the order they won exclusive
/// access: exactly as many records as writers.
pub proof fn lemma_distinct_inserts(records: Seq<Record>)
    requires
        distinct_names(records),
    ensures
        forall|i: int|
            0 <= i < records.len() ==> insert_all(Map::empty(), records).contains_key(
                #[trigger] records[i].name@,
            ) && insert_all(Map::empty(), records)[records[i].name@] == records[i],
        insert_all(Map::empty(), records).dom() == names_of(records).to_set(),
        insert_all(Map::empty(), records).dom().finite(),
        insert_all(Map::empty(), records).len() == records.len(),
        insert_all(Map::empty(), records).values() == records.to_set(),
    decreases records.len(),
{
    if records.len() == 0 {
        assert(names_of(records).to_set() =~= insert_all(Map::empty(), records).dom());
        assert(records.to_set() =~= insert_all(Map::empty(), records).values());
    } else {
        let prefix = records.drop_last();
        let last = records.last();
        let m0 = insert_all(Map::empty(), prefix);
        let m1 = insert_all(Map::empty(), records);
        assert forall|i: int, j: int|
            0 <= i < j < prefix.len() implies prefix[i].name@ != prefix[j].name@ by {
            assert(prefix[i] == records[i]);
            assert(prefix[j] == records[j]);
        }
        lemma_distinct_inserts(prefix);
        assert(m1 == m0.insert(last.name@, last));
        // The last name is fresh: it equals no earlier name.
        assert(!m0.dom().contains(last.name@)) by {
            if m0.dom().contains(last.name@) {
                let i = choose|i: int|
                    0 <= i < names_of(prefix).len() && names_of(prefix)[i] == last.name@;
                assert(names_of(prefix)[i] == prefix[i].name@);
                assert(records[i].name@ == records[records.len() - 1].name@);
                assert(false);
            }
        }
        assert forall|i: int|
            0 <= i < records.len() implies m1.contains_key(#[trigger] records[i].name@)
            && m1[records[i].name@] == records[i] by {
            if i < records.len() - 1 {
                assert(prefix[i] == records[i]);
                assert(m0.contains_key(records[i].name@));
                assert(records[i].name@ != last.name@);
            }
        }
        assert(m1.dom() =~= names_of(records).to_set()) by {
            assert forall|k: Seq<char>|
                m1.dom().contains(k) <==> names_of(records).to_set().contains(k) by {
                if m1.dom().contains(k) {
                    if k == last.name@ {
                        assert(names_of(records)[records.len() - 1] == k);
                    } else {
                        let i = choose|i: int|
                            0 <= i < names_of(prefix).len() && names_of(prefix)[i] == k;
                        assert(names_of(prefix)[i] == prefix[i].name@);
                        assert(names_of(records)[i] == records[i].name@);
                    }
                }
                if names_of(records).to_set().contains(k) {
                    let i = choose|i: int|
                        0 <= i < names_of(records).len() && names_of(records)[i] == k;
                    assert(names_of(records)[i] == records[i].name@);
                    if i < records.len() - 1 {
                        assert(names_of(prefix)[i] == prefix[i].name@);
                        assert(names_of(prefix).to_set().contains(k));
                    }
                }
            }
        }
        assert(m1.len() == records.len()) by {
            vstd::set::axiom_set_insert_len(m0.dom(), last.name@);
            assert(m1.dom() == m0.dom().insert(last.name@));
        }
        assert(m1.values() =~= records.to_set()) by {
            assert forall|r: Record|
                m1.values().contains(r) <==> records.to_set().contains(r) by {
                if m1.values().contains(r) {
                    let k = choose|k: Seq<char>| m1.contains_key(k) && m1[k] == r;
                    if k == last.name@ {
                        assert(records[records.len() - 1] == r);
                    } else {
                        assert(m0.contains_key(k) && m0[k] == r);
                        assert(m0.values().contains(r));
                        assert(prefix.to_set().contains(r));
                        let i = choose|i: int| 0 <= i < prefix.len() && prefix[i] == r;
                        assert(records[i] == r);
                    }
                }
                if records.to_set().contains(r) {
                    let i = choose|i: int| 0 <= i < records.len() && records[i] == r;
                    assert(m1.contains_key(records[i].name@) && m1[records[i].name@] == r);
                    assert(m1.contains_pair(records[i].name@, r));
                }
            }
        }
    }
}

} // verus!
