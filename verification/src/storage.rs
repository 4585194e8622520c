//! The two kinds of backing storage of a value index, as the index sees
//! them: a column of a transactional key-value store, whose keys pair a value
//! with a point and whose deletes wait for a flush, and a memory-mapped table
//! from values to points with tombstones of its own.
//!
//! Both are held here as plain data. Reading them from disk and writing them
//! back is the business of the program around this library.

use crate::bits::{max_bits, BitVector};
use crate::points_container::{container_capacity, container_limit, tombstoned};
use crate::{IntPayloadType, PointOffsetType};
use std::collections::HashMap;
use std::collections::HashSet;
use vstd::prelude::*;

verus! {

broadcast use {
    vstd::std_specs::hash::group_hash_axioms,
    vstd::seq_lib::lemma_seq_contains_after_push,
};

/// A value paired with a point that has it.
pub type Relation = Set<(IntPayloadType, PointOffsetType)>;

/// The points that a relation gives a value to.
pub open spec fn points_of(relation: Relation) -> Set<PointOffsetType> {
    Set::new(
        |point: PointOffsetType|
            exists|value: IntPayloadType| #[trigger] relation.contains((value, point)),
    )
}

/// Whether the table lists `point` under `value`.
pub open spec fn table_has(
    table: Seq<(IntPayloadType, Vec<PointOffsetType>)>,
    value: IntPayloadType,
    point: PointOffsetType,
) -> bool {
    exists|i: int|
        0 <= i < table.len() && (#[trigger] table[i]).0 == value && table[i].1@.contains(point)
}

/// No value has two rows, and no row lists a point twice.
pub open spec fn table_distinct(table: Seq<(IntPayloadType, Vec<PointOffsetType>)>) -> bool {
    &&& forall|i: int, j: int|
        0 <= i < j < table.len() ==> (#[trigger] table[i]).0 != (#[trigger] table[j]).0
    &&& forall|i: int| 0 <= i < table.len() ==> (#[trigger] table[i]).1@.no_duplicates()
}

/// The number of points that the rows of a table list together.
pub open spec fn table_pairs(table: Seq<(IntPayloadType, Vec<PointOffsetType>)>) -> nat
    decreases table.len(),
{
    if table.len() == 0 {
        0
    } else {
        table_pairs(table.drop_last()) + table.last().1@.len()
    }
}

/// The first rows of a table list no more points than the whole table.
pub proof fn lemma_table_pairs_prefix(table: Seq<(IntPayloadType, Vec<PointOffsetType>)>, n: int)
    requires
        0 <= n <= table.len(),
    ensures
        table_pairs(table.take(n)) <= table_pairs(table),
        n < table.len() ==> table_pairs(table.take(n + 1)) == table_pairs(table.take(n))
            + table[n].1@.len(),
    decreases table.len() - n,
{
    if n < table.len() {
        assert(table.take(n + 1).drop_last() =~= table.take(n));
        lemma_table_pairs_prefix(table, n + 1);
    } else {
        assert(table.take(n) =~= table);
    }
}

/// Listing one more point in a row adds that one pair to what the table lists.
pub proof fn lemma_table_row_push(
    before: Seq<(IntPayloadType, Vec<PointOffsetType>)>,
    after: Seq<(IntPayloadType, Vec<PointOffsetType>)>,
    row: int,
    point: PointOffsetType,
)
    requires
        0 <= row < before.len(),
        after.len() == before.len(),
        after[row].0 == before[row].0,
        after[row].1@ == before[row].1@.push(point),
        forall|i: int| 0 <= i < before.len() && i != row ==> after[i] == before[i],
    ensures
        forall|v: IntPayloadType, p: PointOffsetType|
            table_has(after, v, p) <==> table_has(before, v, p) || (v == before[row].0 && p
                == point),
{
    assert forall|v: IntPayloadType, p: PointOffsetType|
        table_has(after, v, p) <==> table_has(before, v, p) || (v == before[row].0 && p
            == point) by {
        if table_has(after, v, p) {
            let i = choose|i: int|
                0 <= i < after.len() && (#[trigger] after[i]).0 == v && after[i].1@.contains(p);
            if i == row {
                if p != point {
                    assert(before[row].1@.contains(p));
                    assert(before[i].0 == v);
                }
            } else {
                assert(before[i].0 == v && before[i].1@.contains(p));
            }
        }
        if table_has(before, v, p) {
            let i = choose|i: int|
                0 <= i < before.len() && (#[trigger] before[i]).0 == v && before[i].1@.contains(
                    p,
                );
            assert(after[i].0 == v && after[i].1@.contains(p));
        }
        if v == before[row].0 && p == point {
            assert(after[row].0 == v && after[row].1@.contains(p));
        }
    }
}

/// Listing one more point in a row makes the table one pair larger.
pub proof fn lemma_table_pairs_row_push(
    before: Seq<(IntPayloadType, Vec<PointOffsetType>)>,
    after: Seq<(IntPayloadType, Vec<PointOffsetType>)>,
    row: int,
)
    requires
        0 <= row < before.len(),
        after.len() == before.len(),
        after[row].1@.len() == before[row].1@.len() + 1,
        forall|i: int| 0 <= i < before.len() && i != row ==> after[i] == before[i],
    ensures
        table_pairs(after) == table_pairs(before) + 1,
    decreases before.len(),
{
    if row == before.len() - 1 {
        assert(after.drop_last() =~= before.drop_last());
    } else {
        lemma_table_pairs_row_push(before.drop_last(), after.drop_last(), row);
    }
}

/// A new row adds the pairs of its value with its points to what the table
/// lists.
pub proof fn lemma_table_push(
    before: Seq<(IntPayloadType, Vec<PointOffsetType>)>,
    row: (IntPayloadType, Vec<PointOffsetType>),
)
    ensures
        forall|v: IntPayloadType, p: PointOffsetType|
            table_has(before.push(row), v, p) <==> table_has(before, v, p) || (v == row.0
                && row.1@.contains(p)),
{
    let after = before.push(row);
    assert forall|v: IntPayloadType, p: PointOffsetType|
        table_has(after, v, p) <==> table_has(before, v, p) || (v == row.0 && row.1@.contains(
            p,
        )) by {
        if table_has(after, v, p) {
            let i = choose|i: int|
                0 <= i < after.len() && (#[trigger] after[i]).0 == v && after[i].1@.contains(p);
            if i < before.len() {
                assert(before[i].0 == v && before[i].1@.contains(p));
            }
        }
        if table_has(before, v, p) {
            let i = choose|i: int|
                0 <= i < before.len() && (#[trigger] before[i]).0 == v && before[i].1@.contains(
                    p,
                );
            assert(after[i].0 == v && after[i].1@.contains(p));
        }
        if v == row.0 && row.1@.contains(p) {
            assert(after[before.len() as int].0 == v && after[before.len() as int].1@.contains(p));
        }
    }
}

/// Whether `pair` is among `pairs`.
fn contains_pair(
    pairs: &Vec<(IntPayloadType, PointOffsetType)>,
    pair: (IntPayloadType, PointOffsetType),
) -> (found: bool)
    ensures
        found == pairs@.contains(pair),
{
    let mut i: usize = 0;
    while i < pairs.len()
        invariant
            i <= pairs.len(),
            forall|j: int| 0 <= j < i ==> pairs@[j] != pair,
        decreases pairs.len() - i,
    {
        let at = pairs[i];
        if at.0 == pair.0 && at.1 == pair.1 {
            return true;
        }
        i += 1;
    }
    false
}

/// One column of a transactional key-value store. A key says that a value
/// applies to a point. A delete is scheduled first and takes a key out of the
/// column only when the store is flushed.
pub struct TransactionalStore {
    column_exists: bool,
    records: Vec<(IntPayloadType, PointOffsetType)>,
    pending_deletes: Vec<(IntPayloadType, PointOffsetType)>,
}

impl TransactionalStore {
    /// Whether the column has ever been written; a store without the column has
    /// nothing to load.
    pub closed spec fn has_column_family(&self) -> bool {
        self.column_exists
    }

    /// The keys that are in the column now.
    pub closed spec fn persisted(&self) -> Relation {
        self.records@.to_set()
    }

    /// The keys whose delete waits for the next flush.
    pub closed spec fn scheduled(&self) -> Relation {
        self.pending_deletes@.to_set()
    }

    /// The keys that the column holds once the scheduled deletes are done.
    pub open spec fn relation(&self) -> Relation {
        self.persisted().difference(self.scheduled())
    }

    /// The invariant: no key is recorded twice, there are no more keys than a
    /// flat container can hold, and without the column there are none.
    pub closed spec fn wf(&self) -> bool {
        &&& self.records@.no_duplicates()
        &&& self.records@.len() <= container_limit()
        &&& !self.column_exists ==> self.records@.len() == 0
    }

    /// A store in which the column does not exist yet.
    pub fn new() -> (store: Self)
        ensures
            store.wf(),
            !store.has_column_family(),
            store.persisted() == Relation::empty(),
            store.scheduled() == Relation::empty(),
    {
        let store = TransactionalStore {
            column_exists: false,
            records: Vec::new(),
            pending_deletes: Vec::new(),
        };
        assert(store.persisted() =~= Relation::empty());
        assert(store.scheduled() =~= Relation::empty());
        store
    }

    /// A store whose column holds the given keys. The keys are refused when one
    /// occurs twice, or when there are more of them than a flat container can
    /// hold on this machine.
    pub fn from_records(keys: Vec<(IntPayloadType, PointOffsetType)>) -> (built: Option<Self>)
        ensures
            built is Some <==> keys@.no_duplicates() && keys@.len() <= container_limit(),
            match built {
                Some(store) => {
                    &&& store.wf()
                    &&& store.has_column_family()
                    &&& store.persisted() == keys@.to_set()
                    &&& store.scheduled() == Relation::empty()
                },
                None => true,
            },
    {
        if keys.len() > container_capacity() {
            return None;
        }
        let mut seen: Vec<(IntPayloadType, PointOffsetType)> = Vec::new();
        let mut i: usize = 0;
        while i < keys.len()
            invariant
                i <= keys.len(),
                seen@ == keys@.take(i as int),
                seen@.no_duplicates(),
            decreases keys.len() - i,
        {
            let key = keys[i];
            if contains_pair(&seen, key) {
                proof {
                    let m = choose|m: int| 0 <= m < seen@.len() && seen@[m] == key;
                    assert(keys@[m] == keys@[i as int]);
                }
                return None;
            }
            seen.push(key);
            proof {
                assert(keys@.take(i + 1) =~= keys@.take(i as int).push(key));
                let shorter = keys@.take(i as int);
                let longer = keys@.take(i + 1);
                assert forall|a: int, b: int|
                    0 <= a < longer.len() && 0 <= b < longer.len() && a != b implies longer[a]
                    != longer[b] by {
                    if a < i && b < i {
                        assert(shorter[a] != shorter[b]);
                    } else if a < i {
                        assert(shorter.contains(shorter[a]));
                    } else {
                        assert(shorter.contains(shorter[b]));
                    }
                }
            }
            i += 1;
        }
        assert(keys@.take(keys.len() as int) =~= keys@);
        let store = TransactionalStore {
            column_exists: true,
            records: keys,
            pending_deletes: Vec::new(),
        };
        assert(store.scheduled() =~= Relation::empty());
        Some(store)
    }

    /// Whether the column exists.
    pub fn column_family_exists(&self) -> (exists: bool)
        ensures
            exists == self.has_column_family(),
    {
        self.column_exists
    }

    /// Schedules the delete of the key that pairs `value` with `point`. The key
    /// stays in the column until the next flush.
    pub fn remove(&mut self, value: IntPayloadType, point: PointOffsetType)
        requires
            old(self).wf(),
        ensures
            final(self).wf(),
            final(self).has_column_family() == old(self).has_column_family(),
            final(self).persisted() == old(self).persisted(),
            final(self).scheduled() == old(self).scheduled().insert((value, point)),
    {
        self.pending_deletes.push((value, point));
        proof {
            assert(self.pending_deletes@ == old(self).pending_deletes@.push((value, point)));
            assert(self.scheduled() =~= old(self).scheduled().insert((value, point)));
        }
    }

    /// The keys whose delete is scheduled, for whoever has to carry it out on
    /// the real store.
    pub fn scheduled_deletes(&self) -> (keys: &Vec<(IntPayloadType, PointOffsetType)>)
        ensures
            keys@.to_set() == self.scheduled(),
    {
        &self.pending_deletes
    }

    /// Carries out the scheduled deletes: afterwards the column holds the keys
    /// that were not scheduled, and nothing is scheduled.
    pub fn flush(&mut self)
        requires
            old(self).wf(),
        ensures
            final(self).wf(),
            final(self).has_column_family() == old(self).has_column_family(),
            final(self).persisted() == old(self).relation(),
            final(self).scheduled() == Relation::empty(),
    {
        let mut kept: Vec<(IntPayloadType, PointOffsetType)> = Vec::new();
        let mut i: usize = 0;
        while i < self.records.len()
            invariant
                i <= self.records.len(),
                self.records == old(self).records,
                self.pending_deletes == old(self).pending_deletes,
                self.column_exists == old(self).column_exists,
                old(self).wf(),
                self.records@.no_duplicates(),
                kept@.no_duplicates(),
                kept@.len() <= i,
                forall|pair: (IntPayloadType, PointOffsetType)|
                    kept@.contains(pair) <==> self.records@.take(i as int).contains(pair)
                        && !self.pending_deletes@.contains(pair),
            decreases self.records.len() - i,
        {
            let record = self.records[i];
            let ghost before = kept@;
            let doomed = contains_pair(&self.pending_deletes, record);
            if !doomed {
                kept.push(record);
            }
            proof {
                let seen = self.records@.take(i as int);
                assert(self.records@.take(i + 1) =~= seen.push(record));
                assert(!seen.contains(record)) by {
                    if seen.contains(record) {
                        let m = choose|m: int| 0 <= m < seen.len() && seen[m] == record;
                        assert(self.records@[m] == self.records@[i as int]);
                    }
                }
                if !doomed {
                    assert(kept@ == before.push(record));
                    assert(!before.contains(record));
                }
            }
            i += 1;
        }
        assert(self.records@.take(self.records.len() as int) =~= self.records@);
        self.records = kept;
        self.pending_deletes = Vec::new();
        assert(self.persisted() =~= old(self).relation());
        assert(self.scheduled() =~= Relation::empty());
    }

    /// The keys of the column, grouped by value: one row per value, with the
    /// points that the column pairs it with. A scheduled delete does not hide
    /// a key before the flush.
    pub fn read_table(&self) -> (table: Vec<(IntPayloadType, Vec<PointOffsetType>)>)
        requires
            self.wf(),
        ensures
            table_distinct(table@),
            table_pairs(table@) <= container_limit(),
            forall|v: IntPayloadType, p: PointOffsetType|
                table_has(table@, v, p) <==> self.persisted().contains((v, p)),
    {
        let mut table: Vec<(IntPayloadType, Vec<PointOffsetType>)> = Vec::new();
        let mut rows: HashMap<IntPayloadType, usize> = HashMap::new();
        let mut k: usize = 0;
        while k < self.records.len()
            invariant
                k <= self.records.len(),
                self.records@.no_duplicates(),
                table_distinct(table@),
                table_pairs(table@) == k,
                forall|v: IntPayloadType| #[trigger]
                    rows@.contains_key(v) ==> rows@[v] < table.len() && table@[rows@[v] as int].0
                        == v,
                forall|i: int|
                    0 <= i < table.len() ==> rows@.contains_key((#[trigger] table@[i]).0),
                forall|v: IntPayloadType, p: PointOffsetType|
                    table_has(table@, v, p) <==> self.records@.take(k as int).contains((v, p)),
            decreases self.records.len() - k,
        {
            let value: IntPayloadType = self.records[k].0;
            let point: PointOffsetType = self.records[k].1;
            let ghost before = table@;
            let ghost seen = self.records@.take(k as int);
            proof {
                assert(self.records@.take(k + 1) =~= seen.push((value, point)));
                assert(!seen.contains((value, point))) by {
                    if seen.contains((value, point)) {
                        let m = choose|m: int| 0 <= m < seen.len() && seen[m] == (value, point);
                        assert(self.records@[m] == self.records@[k as int]);
                    }
                }
                assert(!table_has(before, value, point));
            }
            let known = match rows.get(&value) {
                Some(row) => Some(*row),
                None => None,
            };
            match known {
                Some(row) => {
                    table[row].1.push(point);
                    proof {
                        lemma_table_row_push(before, table@, row as int, point);
                        lemma_table_pairs_row_push(before, table@, row as int);
                        assert(!before[row as int].1@.contains(point));
                        assert forall|i: int, j: int| 0 <= i < j < table@.len() implies (
                        #[trigger] table@[i]).0 != (#[trigger] table@[j]).0 by {
                            assert(before[i].0 != before[j].0);
                        }
                        assert forall|i: int| 0 <= i < table@.len() implies (
                        #[trigger] table@[i]).1@.no_duplicates() by {
                            assert(before[i].1@.no_duplicates());
                        }
                        assert forall|i: int| 0 <= i < table.len() implies rows@.contains_key(
                            (#[trigger] table@[i]).0,
                        ) by {
                            assert(rows@.contains_key(before[i].0));
                        }
                    }
                },
                None => {
                    rows.insert(value, table.len());
                    let mut points: Vec<PointOffsetType> = Vec::new();
                    points.push(point);
                    table.push((value, points));
                    proof {
                        lemma_table_push(before, (value, points));
                        assert(points@ =~= seq![point]);
                        assert(table@.drop_last() =~= before);
                        assert forall|i: int, j: int| 0 <= i < j < table@.len() implies (
                        #[trigger] table@[i]).0 != (#[trigger] table@[j]).0 by {
                            if j < before.len() {
                                assert(before[i].0 != before[j].0);
                            } else {
                                assert(rows@.remove(value).contains_key(before[i].0));
                            }
                        }
                        assert forall|i: int| 0 <= i < table@.len() implies (
                        #[trigger] table@[i]).1@.no_duplicates() by {
                            if i < before.len() {
                                assert(before[i].1@.no_duplicates());
                            }
                        }
                        assert forall|i: int| 0 <= i < table.len() implies rows@.contains_key(
                            (#[trigger] table@[i]).0,
                        ) by {
                            if i < before.len() {
                                assert(rows@.remove(value).contains_key(before[i].0));
                            }
                        }
                        assert forall|v: IntPayloadType| #[trigger]
                            rows@.contains_key(v) implies rows@[v] < table.len()
                            && table@[rows@[v] as int].0 == v by {
                            if v != value {
                                assert(rows@.remove(value).contains_key(v));
                            }
                        }
                    }
                },
            }
            proof {
                assert forall|v: IntPayloadType, p: PointOffsetType|
                    table_has(table@, v, p) <==> self.records@.take(k + 1).contains((v, p)) by {
                    assert(table_has(table@, v, p) <==> table_has(before, v, p) || (v == value
                        && p == point));
                    assert(seen.push((value, point)).contains((v, p)) <==> (value, point) == (v, p)
                        || seen.contains((v, p)));
                }
            }
            k += 1;
        }
        assert(self.records@.take(self.records.len() as int) =~= self.records@);
        table
    }

    /// Drops the column with everything in it.
    pub fn remove_column_family(&mut self)
        ensures
            final(self).wf(),
            !final(self).has_column_family(),
            final(self).persisted() == Relation::empty(),
            final(self).scheduled() == Relation::empty(),
    {
        self.column_exists = false;
        self.records = Vec::new();
        self.pending_deletes = Vec::new();
        assert(self.persisted() =~= Relation::empty());
        assert(self.scheduled() =~= Relation::empty());
    }
}

/// Whether no point occurs twice in `ids`.
fn ids_distinct(ids: &Vec<PointOffsetType>) -> (distinct: bool)
    ensures
        distinct == ids@.no_duplicates(),
{
    let mut seen: HashSet<PointOffsetType> = HashSet::new();
    let mut k: usize = 0;
    while k < ids.len()
        invariant
            k <= ids.len(),
            ids@.take(k as int).no_duplicates(),
            forall|p: PointOffsetType| seen@.contains(p) <==> ids@.take(k as int).contains(p),
        decreases ids.len() - k,
    {
        let id = ids[k];
        let fresh = seen.insert(id);
        proof {
            assert(ids@.take(k + 1) =~= ids@.take(k as int).push(id));
        }
        if !fresh {
            proof {
                let m = choose|m: int|
                    0 <= m < ids@.take(k as int).len() && ids@.take(k as int)[m] == id;
                assert(ids@[m] == ids@[k as int]);
            }
            return false;
        }
        proof {
            let shorter = ids@.take(k as int);
            let longer = ids@.take(k + 1);
            assert forall|i: int, j: int|
                0 <= i < longer.len() && 0 <= j < longer.len() && i != j implies longer[i]
                != longer[j] by {
                if i < k && j < k {
                    assert(shorter[i] != shorter[j]);
                } else if i < k {
                    assert(shorter.contains(shorter[i]));
                } else {
                    assert(shorter.contains(shorter[j]));
                }
            }
        }
        k += 1;
    }
    assert(ids@.take(ids.len() as int) =~= ids@);
    true
}

/// The largest point in `ids`, or nothing for no points.
fn highest_id(ids: &Vec<PointOffsetType>) -> (highest: Option<PointOffsetType>)
    ensures
        match highest {
            Some(top) => ids@.contains(top) && forall|k: int| 0 <= k < ids.len() ==> ids@[k] <= top,
            None => ids.len() == 0,
        },
{
    if ids.len() == 0 {
        return None;
    }
    let mut top: PointOffsetType = ids[0];
    let mut k: usize = 1;
    while k < ids.len()
        invariant
            1 <= k <= ids.len(),
            ids@.contains(top),
            forall|j: int| 0 <= j < k ==> ids@[j] <= top,
        decreases ids.len() - k,
    {
        if ids[k] > top {
            top = ids[k];
        }
        k += 1;
    }
    Some(top)
}

/// A copy of a list of file names.
fn clone_names(names: &Vec<String>) -> (copy: Vec<String>)
    ensures
        copy@ == names@,
{
    let mut copy: Vec<String> = Vec::new();
    let mut i: usize = 0;
    while i < names.len()
        invariant
            i <= names.len(),
            copy@ == names@.take(i as int),
        decreases names.len() - i,
    {
        copy.push(names[i].clone());
        assert(copy@ =~= names@.take(i + 1));
        i += 1;
    }
    assert(names@.take(names.len() as int) =~= names@);
    copy
}

/// A memory-mapped table from values to the points that have them, with a
/// tombstone bit for every point. A tombstone hides the point under all its
/// values, and is written in place: there is nothing to flush.
pub struct MmapStore {
    populated: bool,
    value_to_points: Vec<(IntPayloadType, Vec<PointOffsetType>)>,
    deleted: BitVector,
    on_disk: bool,
    file_names: Vec<String>,
    immutable_file_names: Vec<String>,
    cache_resident: bool,
}

impl MmapStore {
    /// Whether the table has been written; a store that has not has nothing to
    /// load.
    pub closed spec fn is_populated(&self) -> bool {
        self.populated
    }

    /// The rows of the table: a value, and the points listed under it.
    pub closed spec fn table(&self) -> Seq<(IntPayloadType, Vec<PointOffsetType>)> {
        self.value_to_points@
    }

    /// The tombstone bits, by point.
    pub closed spec fn deleted_flags(&self) -> Seq<bool> {
        self.deleted@
    }

    /// Whether the table is read from disk on demand, not held in memory.
    pub closed spec fn on_disk(&self) -> bool {
        self.on_disk
    }

    /// The files that back the table.
    pub closed spec fn file_names(&self) -> Seq<String> {
        self.file_names@
    }

    /// The files among them that are never written again.
    pub closed spec fn immutable_file_names(&self) -> Seq<String> {
        self.immutable_file_names@
    }

    /// Whether pages of the table may be held in the page cache.
    pub closed spec fn cache_resident(&self) -> bool {
        self.cache_resident
    }

    /// Whether two stores hold the same table with the same tombstones, in the
    /// same files, and are read the same way. Only what the page cache holds
    /// may differ.
    pub open spec fn same_table(&self, other: MmapStore) -> bool {
        &&& self.is_populated() == other.is_populated()
        &&& self.table() == other.table()
        &&& self.deleted_flags() == other.deleted_flags()
        &&& self.on_disk() == other.on_disk()
        &&& self.file_names() == other.file_names()
        &&& self.immutable_file_names() == other.immutable_file_names()
    }

    /// The pairs that the table lists and no tombstone hides.
    pub open spec fn relation(&self) -> Relation {
        Set::new(
            |pair: (IntPayloadType, PointOffsetType)|
                table_has(self.table(), pair.0, pair.1) && !tombstoned(
                    self.deleted_flags(),
                    pair.1 as int,
                ),
        )
    }

    /// The invariant: rows and points are distinct, and every listed point has
    /// a tombstone bit.
    pub open spec fn wf(&self) -> bool {
        &&& table_distinct(self.table())
        &&& self.deleted_flags().len() <= max_bits()
        &&& forall|i: int, k: int|
            0 <= i < self.table().len() && 0 <= k < (#[trigger] self.table()[i]).1@.len()
                ==> (#[trigger] self.table()[i].1@[k]) < self.deleted_flags().len()
        &&& !self.is_populated() ==> self.table().len() == 0
        &&& table_pairs(self.table()) <= container_limit()
    }

    /// A store whose table has not been written.
    pub fn new(is_on_disk: bool) -> (store: Self)
        ensures
            store.wf(),
            !store.is_populated(),
            store.on_disk() == is_on_disk,
            store.table().len() == 0,
            store.deleted_flags().len() == 0,
            store.file_names().len() == 0,
            store.immutable_file_names().len() == 0,
            !store.cache_resident(),
    {
        MmapStore {
            populated: false,
            value_to_points: Vec::new(),
            deleted: BitVector::new(),
            on_disk: is_on_disk,
            file_names: Vec::new(),
            immutable_file_names: Vec::new(),
            cache_resident: false,
        }
    }

    /// A store with the given table, in which no point is deleted. The table
    /// is refused when a value has two rows, when a row lists a point twice,
    /// when a point is too large to get a tombstone bit on this machine, or
    /// when the rows list more points than a flat container can hold.
    pub fn build(
        table: Vec<(IntPayloadType, Vec<PointOffsetType>)>,
        is_on_disk: bool,
        files: Vec<String>,
        immutable_files: Vec<String>,
    ) -> (built: Option<Self>)
        ensures
            built is Some <==> table_distinct(table@) && table_pairs(table@) <= container_limit()
                && forall|i: int, k: int|
                0 <= i < table.len() && 0 <= k < (#[trigger] table@[i]).1@.len() ==> (
                #[trigger] table@[i].1@[k]) < max_bits(),
            match built {
                Some(store) => {
                    &&& store.wf()
                    &&& store.is_populated()
                    &&& store.table() == table@
                    &&& store.on_disk() == is_on_disk
                    &&& store.file_names() == files@
                    &&& store.immutable_file_names() == immutable_files@
                    &&& store.cache_resident()
                    &&& forall|p: int| !tombstoned(store.deleted_flags(), p)
                },
                None => true,
            },
    {
        let mut values: HashSet<IntPayloadType> = HashSet::new();
        let mut flags: usize = 0;
        let limit: usize = usize::MAX / 8;
        let capacity: usize = container_capacity();
        let mut total: usize = 0;
        let mut i: usize = 0;
        while i < table.len()
            invariant
                i <= table.len(),
                limit == max_bits(),
                flags <= limit,
                capacity == container_limit(),
                total == table_pairs(table@.take(i as int)),
                total <= capacity,
                table_distinct(table@.take(i as int)),
                forall|v: IntPayloadType|
                    values@.contains(v) <==> exists|j: int|
                        0 <= j < i && (#[trigger] table@[j]).0 == v,
                forall|j: int, k: int|
                    0 <= j < i && 0 <= k < (#[trigger] table@[j]).1@.len() ==> (
                    #[trigger] table@[j].1@[k]) < flags,
            decreases table.len() - i,
        {
            let fresh = values.insert(table[i].0);
            if !fresh {
                proof {
                    let j = choose|j: int| 0 <= j < i && (#[trigger] table@[j]).0 == table@[i as int].0;
                    assert(table@[j].0 == table@[i as int].0);
                }
                return None;
            }
            if !ids_distinct(&table[i].1) {
                return None;
            }
            proof {
                lemma_table_pairs_prefix(table@, i as int);
                lemma_table_pairs_prefix(table@, i + 1);
            }
            if table[i].1.len() > capacity - total {
                return None;
            }
            total += table[i].1.len();
            match highest_id(&table[i].1) {
                Some(top) => {
                    if top as usize >= limit {
                        proof {
                            let k = choose|k: int|
                                0 <= k < table@[i as int].1@.len() && table@[i as int].1@[k] == top;
                            assert(table@[i as int].1@[k] >= max_bits());
                        }
                        return None;
                    }
                    if top as usize + 1 > flags {
                        flags = top as usize + 1;
                    }
                },
                None => {},
            }
            proof {
                let shorter = table@.take(i as int);
                let longer = table@.take(i + 1);
                assert forall|a: int, b: int| 0 <= a < b < longer.len() implies (
                #[trigger] longer[a]).0 != (#[trigger] longer[b]).0 by {
                    if b < i {
                        assert(shorter[a].0 != shorter[b].0);
                    } else {
                        assert(table@[a].0 != table@[i as int].0);
                    }
                }
                assert forall|a: int| 0 <= a < longer.len() implies (
                #[trigger] longer[a]).1@.no_duplicates() by {
                    if a < i {
                        assert(shorter[a].1@.no_duplicates());
                    }
                }
            }
            i += 1;
        }
        assert(table@.take(table.len() as int) =~= table@);
        let mut deleted = BitVector::new();
        deleted.resize(flags, false);
        Some(
            MmapStore {
                populated: true,
                value_to_points: table,
                deleted,
                on_disk: is_on_disk,
                file_names: files,
                immutable_file_names: immutable_files,
                cache_resident: true,
            },
        )
    }

    /// Whether there is a table to load.
    pub fn load(&self) -> (loaded: bool)
        ensures
            loaded == self.is_populated(),
    {
        self.populated
    }

    /// Whether the table is read from disk on demand.
    pub fn is_on_disk(&self) -> (on_disk: bool)
        ensures
            on_disk == self.on_disk(),
    {
        self.on_disk
    }

    /// The files that back the table.
    pub fn files(&self) -> (names: Vec<String>)
        ensures
            names@ == self.file_names(),
    {
        clone_names(&self.file_names)
    }

    /// The files among them that are never written again.
    pub fn immutable_files(&self) -> (names: Vec<String>)
        ensures
            names@ == self.immutable_file_names(),
    {
        clone_names(&self.immutable_file_names)
    }

    /// Whether a tombstone hides `point`. A point without a tombstone bit is
    /// not hidden.
    pub fn is_deleted(&self, point: PointOffsetType) -> (deleted: bool)
        ensures
            deleted == tombstoned(self.deleted_flags(), point as int),
    {
        match self.deleted.get(point as usize) {
            Some(bit) => bit,
            None => false,
        }
    }

    /// Sets the tombstone of `point`, which hides it under all its values.
    /// A point without a tombstone bit is not in the table, and nothing changes.
    pub fn remove_point(&mut self, point: PointOffsetType)
        requires
            old(self).wf(),
        ensures
            final(self).wf(),
            final(self).is_populated() == old(self).is_populated(),
            final(self).table() == old(self).table(),
            final(self).on_disk() == old(self).on_disk(),
            final(self).file_names() == old(self).file_names(),
            final(self).immutable_file_names() == old(self).immutable_file_names(),
            final(self).cache_resident() == old(self).cache_resident(),
            final(self).deleted_flags() == if point < old(self).deleted_flags().len() {
                old(self).deleted_flags().update(point as int, true)
            } else {
                old(self).deleted_flags()
            },
            forall|v: IntPayloadType, p: PointOffsetType|
                final(self).relation().contains((v, p)) <==> old(self).relation().contains((v, p))
                    && p != point,
    {
        if (point as usize) < self.deleted.len() {
            self.deleted.replace(point as usize, true);
        }
        proof {
            assert forall|v: IntPayloadType, p: PointOffsetType|
                self.relation().contains((v, p)) <==> old(self).relation().contains((v, p)) && p
                    != point by {
                if old(self).relation().contains((v, p)) && p == point {
                    let i = choose|i: int|
                        0 <= i < self.table().len() && (#[trigger] self.table()[i]).0 == v
                            && self.table()[i].1@.contains(p);
                    let k = choose|k: int|
                        0 <= k < self.table()[i].1@.len() && self.table()[i].1@[k] == p;
                    assert(self.table()[i].1@[k] < old(self).deleted_flags().len());
                }
            }
        }
    }

    /// The table as a reader sees it: the rows in their order, each without
    /// the points that a tombstone hides.
    pub fn read_table(&self) -> (table: Vec<(IntPayloadType, Vec<PointOffsetType>)>)
        requires
            self.wf(),
        ensures
            table_distinct(table@),
            table_pairs(table@) <= container_limit(),
            table@.len() == self.table().len(),
            forall|i: int| 0 <= i < table@.len() ==> (#[trigger] table@[i]).0 == self.table()[i].0,
            forall|v: IntPayloadType, p: PointOffsetType|
                table_has(table@, v, p) <==> self.relation().contains((v, p)),
    {
        let mut table: Vec<(IntPayloadType, Vec<PointOffsetType>)> = Vec::new();
        let mut i: usize = 0;
        while i < self.value_to_points.len()
            invariant
                i <= self.value_to_points.len(),
                self.wf(),
                table@.len() == i,
                table_pairs(table@) <= table_pairs(self.table().take(i as int)),
                forall|j: int| 0 <= j < i ==> (#[trigger] table@[j]).0 == self.table()[j].0,
                forall|j: int| 0 <= j < i ==> (#[trigger] table@[j]).1@.no_duplicates(),
                forall|j: int, p: PointOffsetType|
                    0 <= j < i ==> (#[trigger] table@[j].1@.contains(p) <==> self.table()[j].1@.contains(
                        p,
                    ) && !tombstoned(self.deleted_flags(), p as int)),
            decreases self.value_to_points.len() - i,
        {
            let ids = &self.value_to_points[i].1;
            let mut live: Vec<PointOffsetType> = Vec::new();
            let mut k: usize = 0;
            while k < ids.len()
                invariant
                    k <= ids.len(),
                    ids@.no_duplicates(),
                    live@.no_duplicates(),
                    live@.len() <= k,
                    forall|p: PointOffsetType|
                        live@.contains(p) <==> ids@.take(k as int).contains(p) && !tombstoned(
                            self.deleted_flags(),
                            p as int,
                        ),
                decreases ids.len() - k,
            {
                let id = ids[k];
                let ghost before = live@;
                proof {
                    let seen = ids@.take(k as int);
                    assert(ids@.take(k + 1) =~= seen.push(id));
                    assert(!seen.contains(id)) by {
                        if seen.contains(id) {
                            let m = choose|m: int| 0 <= m < seen.len() && seen[m] == id;
                            assert(ids@[m] == ids@[k as int]);
                        }
                    }
                }
                if !self.is_deleted(id) {
                    live.push(id);
                    assert(live@ == before.push(id));
                }
                k += 1;
            }
            assert(ids@.take(ids.len() as int) =~= ids@);
            let ghost rows_before = table@;
            table.push((self.value_to_points[i].0, live));
            proof {
                assert(table@.drop_last() =~= rows_before);
                lemma_table_pairs_prefix(self.table(), i as int);
            }
            i += 1;
        }
        proof {
            assert(self.table().take(self.table().len() as int) =~= self.table());
            assert forall|a: int, b: int| 0 <= a < b < table@.len() implies (#[trigger] table@[a]).0
                != (#[trigger] table@[b]).0 by {
                assert(self.table()[a].0 != self.table()[b].0);
            }
            assert forall|v: IntPayloadType, p: PointOffsetType|
                table_has(table@, v, p) <==> self.relation().contains((v, p)) by {
                if table_has(table@, v, p) {
                    let j = choose|j: int|
                        0 <= j < table@.len() && (#[trigger] table@[j]).0 == v
                            && table@[j].1@.contains(p);
                    assert(self.table()[j].0 == v && self.table()[j].1@.contains(p));
                }
                if self.relation().contains((v, p)) {
                    let j = choose|j: int|
                        0 <= j < self.table().len() && (#[trigger] self.table()[j]).0 == v
                            && self.table()[j].1@.contains(p);
                    assert(table@[j].0 == v && table@[j].1@.contains(p));
                }
            }
        }
        table
    }

    /// Lets go of the cached pages of the table. What the table holds does not
    /// depend on it.
    pub fn clear_cache(&mut self)
        ensures
            !final(self).cache_resident(),
            final(self).is_populated() == old(self).is_populated(),
            final(self).table() == old(self).table(),
            final(self).deleted_flags() == old(self).deleted_flags(),
            final(self).on_disk() == old(self).on_disk(),
            final(self).file_names() == old(self).file_names(),
            final(self).immutable_file_names() == old(self).immutable_file_names(),
    {
        self.cache_resident = false;
    }

    /// Removes the table with its tombstones and files.
    pub fn wipe(&mut self)
        ensures
            final(self).wf(),
            !final(self).is_populated(),
            final(self).table().len() == 0,
            final(self).deleted_flags().len() == 0,
            final(self).file_names().len() == 0,
            final(self).immutable_file_names().len() == 0,
            !final(self).cache_resident(),
            final(self).on_disk() == old(self).on_disk(),
            final(self).relation() == Relation::empty(),
    {
        self.populated = false;
        self.value_to_points = Vec::new();
        self.deleted.clear();
        self.file_names = Vec::new();
        self.immutable_file_names = Vec::new();
        self.cache_resident = false;
        assert(self.relation() =~= Relation::empty());
    }
}

/// What a value index keeps its data in. The kind is chosen when the index is
/// opened and stays for good.
pub enum Storage {
    /// A column of the transactional key-value store.
    RocksDb(TransactionalStore),
    /// A memory-mapped table.
    Mmap(Box<MmapStore>),
}

/// The kind of backing storage, for those who choose a snapshot strategy by it.
#[derive(Debug, Clone, Copy, PartialEq, Eq, Structural)]
pub enum StorageType {
    RocksDb,
    Mmap { is_on_disk: bool },
}

impl Storage {
    /// The invariant of the store that is held.
    pub open spec fn wf(&self) -> bool {
        match self {
            Storage::RocksDb(store) => store.wf(),
            Storage::Mmap(store) => store.wf(),
        }
    }

    /// The pairs of value and point that a reader finds once everything
    /// scheduled has been carried out.
    pub open spec fn relation(&self) -> Relation {
        match self {
            Storage::RocksDb(store) => store.relation(),
            Storage::Mmap(store) => store.relation(),
        }
    }

    /// The pairs of value and point that a reader finds right now.
    pub open spec fn persisted(&self) -> Relation {
        match self {
            Storage::RocksDb(store) => store.persisted(),
            Storage::Mmap(store) => store.relation(),
        }
    }

    /// Whether anything has been written that could be loaded.
    pub open spec fn has_data(&self) -> bool {
        match self {
            Storage::RocksDb(store) => store.has_column_family(),
            Storage::Mmap(store) => store.is_populated(),
        }
    }
}

} // verus!
