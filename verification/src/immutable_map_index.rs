//! The value index: which points have a value, and which values a point has.
//! It is loaded once from its backing storage into a flat points container and
//! a reverse index, and from then on only loses points, one at a time.

use crate::error::{OperationError, OperationResult};
use crate::point_to_values::{
    lemma_totals_bounds, lemma_totals_push, lemma_totals_update, points_with_values, total_values,
    ImmutablePointToValues,
};
use crate::points_container::{
    container_limit, lemma_without_absent, lemma_without_ascending, lemma_without_contains, purge,
    removal, tombstoned, without_point, FlatPointsContainer,
};
use crate::sorted::{
    lemma_sorted_distinct, lemma_strictly_ascending_unique, sort_unstable, strictly_ascending,
};
use crate::storage::{
    lemma_table_pairs_prefix, points_of, table_distinct, table_has, table_pairs, MmapStore,
    Relation, Storage, StorageType, TransactionalStore,
};
use crate::{IntPayloadType, PointOffsetType};
use vstd::prelude::*;

verus! {

broadcast use vstd::seq_lib::lemma_seq_contains_after_push;

/// What an index holds, apart from how it is laid out in memory.
pub struct IndexState {
    /// The live points of every value that has any, in ascending order.
    pub value_to_points: Map<IntPayloadType, Seq<PointOffsetType>>,
    /// The values of every point the index was loaded for.
    pub point_to_values: Seq<Seq<IntPayloadType>>,
    /// The number of points that have at least one value.
    pub indexed_points: nat,
    /// The number of values that all points have together.
    pub values_count: nat,
}

impl IndexState {
    /// Whether `point` is a live point of `value`.
    pub open spec fn has(self, value: IntPayloadType, point: PointOffsetType) -> bool {
        self.value_to_points.contains_key(value) && self.value_to_points[value].contains(point)
    }

    /// The pairs of a value and a point that has it.
    pub open spec fn relation(self) -> Relation {
        Set::new(|pair: (IntPayloadType, PointOffsetType)| self.has(pair.0, pair.1))
    }

    /// The points that have at least one value.
    pub open spec fn live_points(self) -> Set<PointOffsetType> {
        Set::new(|point: PointOffsetType| exists|value: IntPayloadType| self.has(value, point))
    }

    /// What holds of the state of every index: the reverse index has no entry
    /// beyond the largest point identifier, the two directions say the same,
    /// every run is strictly ascending and not empty, no point has a value
    /// twice, and the counters count what the reverse index holds.
    pub open spec fn consistent(self) -> bool {
        &&& self.point_to_values.len() <= u32::MAX + 1
        &&& forall|value: IntPayloadType, point: PointOffsetType|
            self.has(value, point) <==> point < self.point_to_values.len()
                && self.point_to_values[point as int].contains(value)
        &&& forall|value: IntPayloadType| #[trigger]
            self.value_to_points.contains_key(value) ==> strictly_ascending(
                self.value_to_points[value],
            ) && self.value_to_points[value].len() > 0
        &&& self.value_to_points.dom().finite()
        &&& forall|point: int|
            0 <= point < self.point_to_values.len() ==> (
            #[trigger] self.point_to_values[point]).no_duplicates()
        &&& self.values_count == total_values(self.point_to_values)
        &&& self.indexed_points == points_with_values(self.point_to_values)
    }

    /// The state after `idx` has been removed: the point leaves the run of every
    /// value, its entry in the reverse index is cleared, and the counters drop
    /// by what the point contributed. A point the index was not loaded for
    /// changes nothing.
    pub open spec fn remove_point(self, idx: PointOffsetType) -> IndexState {
        if idx < self.point_to_values.len() {
            let removed = self.point_to_values[idx as int].len();
            IndexState {
                value_to_points: purge(self.value_to_points, idx),
                point_to_values: self.point_to_values.update(
                    idx as int,
                    Seq::<IntPayloadType>::empty(),
                ),
                indexed_points: if removed > 0 {
                    (self.indexed_points - 1) as nat
                } else {
                    self.indexed_points
                },
                values_count: (self.values_count - removed) as nat,
            }
        } else {
            self
        }
    }
}

/// Removing a point twice leaves an index as removing it once does: the second
/// removal finds nothing to do, and no counter moves again.
pub proof fn lemma_remove_point_idempotent(state: IndexState, idx: PointOffsetType)
    ensures
        state.remove_point(idx).remove_point(idx) == state.remove_point(idx),
{
    let once = state.remove_point(idx);
    let twice = once.remove_point(idx);
    if idx < state.point_to_values.len() {
        assert(once.point_to_values[idx as int].len() == 0);
        assert(twice.point_to_values =~= once.point_to_values);
        assert forall|value: IntPayloadType|
            once.value_to_points.contains_key(value) implies without_point(
            once.value_to_points[value],
            idx,
        ) == once.value_to_points[value] by {
            lemma_without_contains(state.value_to_points[value], idx);
            lemma_without_absent(once.value_to_points[value], idx);
        }
        assert(twice.value_to_points =~= once.value_to_points);
    }
}

/// Removing a point keeps a consistent state consistent, and takes exactly
/// the pairs of that point out of the relation.
pub proof fn lemma_remove_point_consistent(state: IndexState, idx: PointOffsetType)
    requires
        state.consistent(),
    ensures
        state.remove_point(idx).consistent(),
        forall|value: IntPayloadType, point: PointOffsetType|
            state.remove_point(idx).has(value, point) <==> state.has(value, point) && point != idx,
{
    let after = state.remove_point(idx);
    assert forall|value: IntPayloadType, point: PointOffsetType|
        after.has(value, point) <==> state.has(value, point) && point != idx by {
        if state.value_to_points.contains_key(value) {
            lemma_without_contains(state.value_to_points[value], idx);
        }
        if idx < state.point_to_values.len() {
            if state.has(value, point) && point != idx {
                assert(without_point(state.value_to_points[value], idx).contains(point));
            }
        } else {
            if state.has(value, point) {
                assert(point < state.point_to_values.len());
            }
        }
    }
    if idx < state.point_to_values.len() {
        lemma_totals_update(state.point_to_values, idx as int, Seq::<IntPayloadType>::empty());
        assert forall|value: IntPayloadType| #[trigger]
            after.value_to_points.contains_key(value) implies strictly_ascending(
            after.value_to_points[value],
        ) && after.value_to_points[value].len() > 0 by {
            assert(state.value_to_points.contains_key(value));
            lemma_without_ascending(state.value_to_points[value], idx);
        }
        assert(after.value_to_points.dom().subset_of(state.value_to_points.dom()));
        vstd::set_lib::lemma_len_subset(
            after.value_to_points.dom(),
            state.value_to_points.dom(),
        );
        assert forall|point: int| 0 <= point < after.point_to_values.len() implies (
        #[trigger] after.point_to_values[point]).no_duplicates() by {
            if point != idx {
                assert(state.point_to_values[point].no_duplicates());
            }
        }
    }
}

/// The pairs that the reverse lists hold for the points below `n`.
pub open spec fn pairs_below(lists: Seq<Seq<IntPayloadType>>, n: int) -> Relation {
    Set::new(
        |pair: (IntPayloadType, PointOffsetType)|
            pair.1 < n && lists_have(lists, pair.0, pair.1),
    )
}

/// The points below `n` to which the reverse lists give a value.
pub open spec fn points_below(lists: Seq<Seq<IntPayloadType>>, n: int) -> Set<PointOffsetType> {
    Set::new(|point: PointOffsetType| point < n && lists_have_any(lists, point))
}

/// There are as many pairs for the points below `n` as their lists have
/// values together.
proof fn lemma_count_pairs(lists: Seq<Seq<IntPayloadType>>, n: int)
    requires
        0 <= n <= lists.len() <= u32::MAX + 1,
        forall|p: int| 0 <= p < lists.len() ==> (#[trigger] lists[p]).no_duplicates(),
    ensures
        pairs_below(lists, n).finite(),
        pairs_below(lists, n).len() == total_values(lists.take(n)),
    decreases n,
{
    if n == 0 {
        assert(pairs_below(lists, 0) =~= Set::empty());
        assert(lists.take(0) =~= Seq::empty());
    } else {
        lemma_count_pairs(lists, n - 1);
        let point = (n - 1) as PointOffsetType;
        let row = lists[n - 1];
        let pairing = |value: IntPayloadType| (value, point);
        let added = row.to_set().map(pairing);
        assert(row.no_duplicates());
        row.unique_seq_to_set();
        vstd::seq_lib::seq_to_set_is_finite(row);
        assert(vstd::relations::injective_on(pairing, row.to_set()));
        vstd::set_lib::lemma_map_size(row.to_set(), added, pairing);
        let before = pairs_below(lists, n - 1);
        assert(before.disjoint(added));
        vstd::set_lib::lemma_set_disjoint_lens(before, added);
        assert(pairs_below(lists, n) =~= before + added) by {
            assert forall|pair: (IntPayloadType, PointOffsetType)|
                pairs_below(lists, n).contains(pair) <==> (before + added).contains(pair) by {
                if pairs_below(lists, n).contains(pair) && pair.1 == point {
                    assert(row.to_set().contains(pair.0));
                    assert(pair == pairing(pair.0));
                }
            }
        }
        assert(lists.take(n).drop_last() =~= lists.take(n - 1));
    }
}

/// There are as many points with a value below `n` as lists that are not
/// empty.
proof fn lemma_count_points(lists: Seq<Seq<IntPayloadType>>, n: int)
    requires
        0 <= n <= lists.len() <= u32::MAX + 1,
    ensures
        points_below(lists, n).finite(),
        points_below(lists, n).len() == points_with_values(lists.take(n)),
    decreases n,
{
    if n == 0 {
        assert(points_below(lists, 0) =~= Set::empty());
        assert(lists.take(0) =~= Seq::empty());
    } else {
        lemma_count_points(lists, n - 1);
        let point = (n - 1) as PointOffsetType;
        let before = points_below(lists, n - 1);
        if lists[n - 1].len() > 0 {
            assert(points_below(lists, n) =~= before.insert(point));
        } else {
            assert(points_below(lists, n) =~= before);
        }
        assert(lists.take(n).drop_last() =~= lists.take(n - 1));
    }
}

/// The counters of a consistent state count what it holds: the values count
/// is the number of pairs of a value and a point that has it, and the indexed
/// points are the points that have at least one value, each counted once.
pub proof fn lemma_counters_count(state: IndexState)
    requires
        state.consistent(),
    ensures
        state.relation().finite(),
        state.values_count == state.relation().len(),
        state.live_points().finite(),
        state.indexed_points == state.live_points().len(),
{
    let lists = state.point_to_values;
    let n = lists.len() as int;
    lemma_count_pairs(lists, n);
    lemma_count_points(lists, n);
    assert(lists.take(n) =~= lists);
    assert(state.relation() =~= pairs_below(lists, n));
    assert(state.live_points() =~= points_below(lists, n)) by {
        assert forall|point: PointOffsetType|
            state.live_points().contains(point) <==> points_below(lists, n).contains(point) by {
            if points_below(lists, n).contains(point) {
                let value = lists[point as int][0];
                assert(lists[point as int].contains(value));
                assert(state.has(value, point));
            }
            if state.live_points().contains(point) {
                let value = choose|value: IntPayloadType| state.has(value, point);
                assert(lists[point as int].contains(value));
            }
        }
    }
}

/// The points with values of a state are the points of its relation.
pub proof fn lemma_live_points_of_relation(state: IndexState)
    ensures
        state.live_points() == points_of(state.relation()),
{
    assert forall|point: PointOffsetType|
        state.live_points().contains(point) <==> points_of(state.relation()).contains(point) by {
        if state.live_points().contains(point) {
            let value = choose|value: IntPayloadType| state.has(value, point);
            assert(state.relation().contains((value, point)));
        }
        if points_of(state.relation()).contains(point) {
            let value = choose|value: IntPayloadType| #[trigger]
                state.relation().contains((value, point));
            assert(state.has(value, point));
        }
    }
    assert(state.live_points() =~= points_of(state.relation()));
}

/// The counts of a list of values with their counts, added up.
pub open spec fn counts_total(counts: Seq<(IntPayloadType, usize)>) -> nat
    decreases counts.len(),
{
    if counts.len() == 0 {
        0
    } else {
        counts_total(counts.drop_last()) + counts.last().1 as nat
    }
}

/// Whether `value` is among the first `n` values of the list.
pub open spec fn listed(counts: Seq<(IntPayloadType, usize)>, n: int, value: IntPayloadType) -> bool {
    exists|j: int| 0 <= j < n && (#[trigger] counts[j]).0 == value
}

/// The runs of all values together hold as many points as the index has
/// values: a list that names every value with a live point once, with the
/// length of its run, adds up to the values count.
pub proof fn lemma_counts_total(state: IndexState, counts: Seq<(IntPayloadType, usize)>)
    requires
        state.consistent(),
        forall|i: int, j: int|
            0 <= i < j < counts.len() ==> (#[trigger] counts[i]).0 != (#[trigger] counts[j]).0,
        forall|i: int|
            0 <= i < counts.len() ==> state.value_to_points.contains_key((#[trigger] counts[i]).0)
                && counts[i].1 == state.value_to_points[counts[i].0].len(),
        forall|value: IntPayloadType|
            state.value_to_points.contains_key(value) ==> listed(
                counts,
                counts.len() as int,
                value,
            ),
    ensures
        counts_total(counts) == state.values_count,
{
    lemma_counts_prefix(state, counts, counts.len() as int);
    lemma_counters_count(state);
    assert(counts.take(counts.len() as int) =~= counts);
    assert(state.relation() =~= Set::new(
        |pair: (IntPayloadType, PointOffsetType)|
            state.has(pair.0, pair.1) && listed(counts, counts.len() as int, pair.0),
    ));
}

/// The pairs of the first `n` listed values are as many as their counts add
/// up to.
proof fn lemma_counts_prefix(state: IndexState, counts: Seq<(IntPayloadType, usize)>, n: int)
    requires
        state.consistent(),
        0 <= n <= counts.len(),
        forall|i: int, j: int|
            0 <= i < j < counts.len() ==> (#[trigger] counts[i]).0 != (#[trigger] counts[j]).0,
        forall|i: int|
            0 <= i < counts.len() ==> state.value_to_points.contains_key((#[trigger] counts[i]).0)
                && counts[i].1 == state.value_to_points[counts[i].0].len(),
    ensures
        Set::new(
            |pair: (IntPayloadType, PointOffsetType)|
                state.has(pair.0, pair.1) && listed(counts, n, pair.0),
        ).finite(),
        Set::new(
            |pair: (IntPayloadType, PointOffsetType)|
                state.has(pair.0, pair.1) && listed(counts, n, pair.0),
        ).len() == counts_total(counts.take(n)),
    decreases n,
{
    let reached = Set::new(
        |pair: (IntPayloadType, PointOffsetType)|
            state.has(pair.0, pair.1) && listed(counts, n, pair.0),
    );
    if n == 0 {
        assert(reached =~= Set::empty());
        assert(counts.take(0) =~= Seq::empty());
    } else {
        lemma_counts_prefix(state, counts, n - 1);
        let before = Set::new(
            |pair: (IntPayloadType, PointOffsetType)|
                state.has(pair.0, pair.1) && listed(counts, n - 1, pair.0),
        );
        let value = counts[n - 1].0;
        let run = state.value_to_points[value];
        let pairing = |point: PointOffsetType| (value, point);
        let added = run.to_set().map(pairing);
        assert(state.value_to_points.contains_key(value));
        assert(run.no_duplicates()) by {
            assert(strictly_ascending(run));
            assert forall|i: int, j: int|
                0 <= i < run.len() && 0 <= j < run.len() && i != j implies run[i] != run[j] by {
                if i < j {
                    assert(run[i] < run[j]);
                } else {
                    assert(run[j] < run[i]);
                }
            }
        }
        run.unique_seq_to_set();
        vstd::seq_lib::seq_to_set_is_finite(run);
        assert(vstd::relations::injective_on(pairing, run.to_set()));
        vstd::set_lib::lemma_map_size(run.to_set(), added, pairing);
        assert(!listed(counts, n - 1, value)) by {
            if listed(counts, n - 1, value) {
                let j = choose|j: int| 0 <= j < n - 1 && (#[trigger] counts[j]).0 == value;
                assert(counts[j].0 != counts[n - 1].0);
            }
        }
        assert(before.disjoint(added));
        vstd::set_lib::lemma_set_disjoint_lens(before, added);
        assert(reached =~= before + added) by {
            assert forall|pair: (IntPayloadType, PointOffsetType)|
                reached.contains(pair) <==> (before + added).contains(pair) by {
                if reached.contains(pair) {
                    let j = choose|j: int| 0 <= j < n && (#[trigger] counts[j]).0 == pair.0;
                    if j == n - 1 {
                        assert(run.to_set().contains(pair.1));
                        assert(pair == pairing(pair.1));
                    } else {
                        assert(listed(counts, n - 1, pair.0));
                    }
                }
                if before.contains(pair) {
                    let j = choose|j: int| 0 <= j < n - 1 && (#[trigger] counts[j]).0 == pair.0;
                    assert(listed(counts, n, pair.0));
                }
                if added.contains(pair) {
                    assert(counts[n - 1].0 == pair.0);
                    assert(listed(counts, n, pair.0));
                }
            }
        }
        assert(counts.take(n).drop_last() =~= counts.take(n - 1));
    }
}

/// A consistent state is settled by its relation: two of them that pair the
/// same values with the same points have the same run for every value, the
/// same points with values, the same values for every point, and the same
/// counters. How long the reverse index is, and in which order it lists the
/// values of a point, is all that may differ.
pub proof fn lemma_relation_settles_runs(a: IndexState, b: IndexState)
    requires
        a.consistent(),
        b.consistent(),
        a.relation() == b.relation(),
    ensures
        a.value_to_points == b.value_to_points,
        a.live_points() == b.live_points(),
        a.values_count == b.values_count,
        a.indexed_points == b.indexed_points,
        forall|value: IntPayloadType, point: PointOffsetType|
            lists_have(a.point_to_values, value, point) == lists_have(
                b.point_to_values,
                value,
                point,
            ),
{
    assert forall|value: IntPayloadType, point: PointOffsetType|
        a.has(value, point) == b.has(value, point) by {
        let pair = (value, point);
        assert(a.relation().contains(pair) == a.has(pair.0, pair.1));
        assert(b.relation().contains(pair) == b.has(pair.0, pair.1));
    }
    assert forall|value: IntPayloadType|
        a.value_to_points.contains_key(value) == b.value_to_points.contains_key(value) by {
        if a.value_to_points.contains_key(value) {
            let point = a.value_to_points[value][0];
            assert(a.has(value, point));
            assert(b.has(value, point));
        }
        if b.value_to_points.contains_key(value) {
            let point = b.value_to_points[value][0];
            assert(b.has(value, point));
            assert(a.has(value, point));
        }
    }
    assert forall|value: IntPayloadType|
        a.value_to_points.contains_key(value) implies a.value_to_points[value]
        == b.value_to_points[value] by {
        assert forall|point: PointOffsetType|
            a.value_to_points[value].contains(point) <==> b.value_to_points[value].contains(
                point,
            ) by {
            assert(a.has(value, point) == b.has(value, point));
        }
        lemma_strictly_ascending_unique(a.value_to_points[value], b.value_to_points[value]);
    }
    assert(a.value_to_points =~= b.value_to_points);
    assert(a.live_points() =~= b.live_points());
    lemma_counters_count(a);
    lemma_counters_count(b);
    assert forall|value: IntPayloadType, point: PointOffsetType|
        lists_have(a.point_to_values, value, point) == lists_have(
            b.point_to_values,
            value,
            point,
        ) by {
        assert(a.has(value, point) == b.has(value, point));
    }
}

/// The lists of values behind a vector of vectors.
pub open spec fn lists_view(lists: Seq<Vec<IntPayloadType>>) -> Seq<Seq<IntPayloadType>> {
    Seq::new(lists.len(), |p: int| lists[p]@)
}

/// Whether the reverse lists give `value` to `point`.
pub open spec fn lists_have(
    lists: Seq<Seq<IntPayloadType>>,
    value: IntPayloadType,
    point: PointOffsetType,
) -> bool {
    point < lists.len() && lists[point as int].contains(value)
}

/// Whether the reverse lists give any value to `point`.
pub open spec fn lists_have_any(lists: Seq<Seq<IntPayloadType>>, point: PointOffsetType) -> bool {
    point < lists.len() && lists[point as int].len() > 0
}

/// Gives `value` to `point` in the reverse lists under construction, which
/// grow to reach the point. Says whether it is the first value of the point.
fn add_value(lists: &mut Vec<Vec<IntPayloadType>>, point: PointOffsetType, value: IntPayloadType) -> (first:
    bool)
    requires
        old(lists).len() == 0 || old(lists)@[old(lists).len() - 1]@.len() > 0,
    ensures
        final(lists).len() == if point < old(lists).len() {
            old(lists).len() as int
        } else {
            point + 1
        },
        final(lists)@[final(lists).len() - 1]@.len() > 0,
        forall|p: int|
            0 <= p < final(lists).len() && p != point ==> (#[trigger] final(lists)@[p])@ == if p
                < old(lists).len() {
                old(lists)@[p]@
            } else {
                Seq::<IntPayloadType>::empty()
            },
        final(lists)@[point as int]@ == if point < old(lists).len() {
            old(lists)@[point as int]@.push(value)
        } else {
            seq![value]
        },
        first <==> !(point < old(lists).len() && old(lists)@[point as int]@.len() > 0),
        total_values(lists_view(final(lists)@)) == total_values(lists_view(old(lists)@)) + 1,
        points_with_values(lists_view(final(lists)@)) == points_with_values(
            lists_view(old(lists)@),
        ) + if first {
            1int
        } else {
            0int
        },
{
    while lists.len() <= point as usize
        invariant
            old(lists).len() <= lists.len() <= point + 1 || (point < old(lists).len()
                && lists.len() == old(lists).len()),
            forall|p: int|
                0 <= p < lists.len() ==> (#[trigger] lists@[p])@ == if p < old(lists).len() {
                    old(lists)@[p]@
                } else {
                    Seq::<IntPayloadType>::empty()
                },
            total_values(lists_view(lists@)) == total_values(lists_view(old(lists)@)),
            points_with_values(lists_view(lists@)) == points_with_values(lists_view(old(lists)@)),
        decreases point + 1 - lists.len(),
    {
        let ghost before = lists_view(lists@);
        lists.push(Vec::new());
        proof {
            assert(lists_view(lists@) =~= before.push(Seq::<IntPayloadType>::empty()));
            lemma_totals_push(before, Seq::<IntPayloadType>::empty());
        }
    }
    let first = lists[point as usize].len() == 0;
    let ghost before = lists_view(lists@);
    lists[point as usize].push(value);
    proof {
        assert(lists_view(lists@) =~= before.update(point as int, before[point as int].push(value)));
        lemma_totals_update(before, point as int, before[point as int].push(value));
        if point >= old(lists).len() {
            assert(lists@[point as int]@ =~= seq![value]);
        }
    }
    first
}

/// Builds the reverse lists for a table: every point gets the values of the
/// rows that list it. Also counts the points that have a value, and the values.
fn build_reverse(table: &Vec<(IntPayloadType, Vec<PointOffsetType>)>) -> (built: (
    Vec<Vec<IntPayloadType>>,
    usize,
    usize,
))
    requires
        table_distinct(table@),
        table_pairs(table@) <= container_limit(),
    ensures
        forall|v: IntPayloadType, p: PointOffsetType|
            lists_have(lists_view(built.0@), v, p) <==> table_has(table@, v, p),
        forall|p: int|
            0 <= p < built.0@.len() ==> (#[trigger] lists_view(built.0@)[p]).no_duplicates(),
        built.0@.len() == 0 || built.0@[built.0@.len() - 1]@.len() > 0,
        built.0@.len() <= u32::MAX + 1,
        built.2 == table_pairs(table@),
        built.1 == points_with_values(lists_view(built.0@)),
        built.2 == total_values(lists_view(built.0@)),
{
    let mut lists: Vec<Vec<IntPayloadType>> = Vec::new();
    let mut indexed_points: usize = 0;
    let mut values_count: usize = 0;
    let mut i: usize = 0;
    assert(table@.take(0) =~= Seq::empty());
    while i < table.len()
        invariant
            i <= table.len(),
            table_distinct(table@),
            table_pairs(table@) <= container_limit(),
            forall|v: IntPayloadType, p: PointOffsetType|
                #[trigger] lists_have(lists_view(lists@), v, p) <==> table_has(
                    table@.take(i as int),
                    v,
                    p,
                ),
            forall|p: int|
                0 <= p < lists@.len() ==> (#[trigger] lists_view(lists@)[p]).no_duplicates(),
            lists@.len() == 0 || lists@[lists@.len() - 1]@.len() > 0,
            lists@.len() <= u32::MAX + 1,
            indexed_points == points_with_values(lists_view(lists@)),
            values_count == total_values(lists_view(lists@)),
            values_count == table_pairs(table@.take(i as int)),
        decreases table.len() - i,
    {
        let value: IntPayloadType = table[i].0;
        let ids = &table[i].1;
        let ghost done = table@.take(i as int);
        proof {
            lemma_table_pairs_prefix(table@, i as int);
            lemma_table_pairs_prefix(table@, i + 1);
            // no earlier row has this value
            assert forall|p: PointOffsetType| !table_has(done, value, p) by {
                if table_has(done, value, p) {
                    let j = choose|j: int|
                        0 <= j < done.len() && (#[trigger] done[j]).0 == value && done[j].1@.contains(
                            p,
                        );
                    assert(table@[j].0 != table@[i as int].0);
                }
            }
        }
        let mut k: usize = 0;
        while k < ids.len()
            invariant
                k <= ids.len(),
                i < table.len(),
                ids@ == table@[i as int].1@,
                value == table@[i as int].0,
                done == table@.take(i as int),
                ids@.no_duplicates(),
                forall|p: PointOffsetType| !#[trigger] table_has(done, value, p),
                table_pairs(done) + ids.len() <= container_limit(),
                forall|v: IntPayloadType, p: PointOffsetType|
                    #[trigger] lists_have(lists_view(lists@), v, p) <==> table_has(done, v, p) || (v
                        == value && ids@.take(k as int).contains(p)),
                forall|p: int|
                    0 <= p < lists@.len() ==> (#[trigger] lists_view(lists@)[p]).no_duplicates(),
                lists@.len() == 0 || lists@[lists@.len() - 1]@.len() > 0,
                lists@.len() <= u32::MAX + 1,
                indexed_points == points_with_values(lists_view(lists@)),
                values_count == total_values(lists_view(lists@)),
                values_count == table_pairs(done) + k,
            decreases ids.len() - k,
        {
            let point = ids[k];
            let ghost before = lists_view(lists@);
            proof {
                lemma_totals_bounds(before);
                let seen = ids@.take(k as int);
                assert(ids@.take(k + 1) =~= seen.push(point));
                assert(!seen.contains(point)) by {
                    if seen.contains(point) {
                        let m = choose|m: int| 0 <= m < seen.len() && seen[m] == point;
                        assert(ids@[m] == ids@[k as int]);
                    }
                }
                assert(!lists_have(before, value, point));
            }
            let first = add_value(&mut lists, point, value);
            if first {
                indexed_points += 1;
            }
            values_count += 1;
            proof {
                let after = lists_view(lists@);
                let seen = ids@.take(k as int);
                assert forall|v: IntPayloadType, p: PointOffsetType| #[trigger]
                    lists_have(after, v, p) <==> table_has(done, v, p) || (v == value && ids@.take(
                        k + 1,
                    ).contains(p)) by {
                    assert(seen.push(point).contains(p) <==> point == p || seen.contains(p));
                    if p == point {
                        if point < before.len() {
                            assert(after[p as int] == before[p as int].push(value));
                        } else {
                            assert(after[p as int] == seq![value]);
                            assert(seq![value] =~= Seq::<IntPayloadType>::empty().push(value));
                        }
                        assert(lists_have(before, v, p) <==> table_has(done, v, p) || (v == value
                            && seen.contains(p)));
                    } else {
                        if p < after.len() {
                            assert(after[p as int] == lists@[p as int]@);
                        }
                        assert(lists_have(before, v, p) <==> table_has(done, v, p) || (v == value
                            && seen.contains(p)));
                    }
                }
                assert forall|p: int| 0 <= p < lists@.len() implies (
                #[trigger] lists_view(lists@)[p]).no_duplicates() by {
                    if p == point {
                        if point < before.len() {
                            assert(before[p].no_duplicates());
                            assert(!before[p].contains(value));
                        }
                    } else if p < before.len() {
                        assert(before[p].no_duplicates());
                        assert(after[p] == lists@[p]@);
                    }
                }
            }
            k += 1;
        }
        proof {
            assert(ids@.take(ids.len() as int) =~= ids@);
            let next = table@.take(i + 1);
            assert(next =~= done.push(table@[i as int]));
            crate::storage::lemma_table_push(done, table@[i as int]);
            assert forall|v: IntPayloadType, p: PointOffsetType| #[trigger]
                lists_have(lists_view(lists@), v, p) <==> table_has(next, v, p) by {
                assert(table_has(next, v, p) <==> table_has(done, v, p) || (v == value
                    && ids@.contains(p)));
            }
        }
        i += 1;
    }
    assert(table@.take(table.len() as int) =~= table@);
    (lists, indexed_points, values_count)
}

/// Lays the rows of a table out in a flat points container: the points of
/// every row are sorted and given a run of their own.
fn build_forward(
    container: &mut FlatPointsContainer,
    table: &Vec<(IntPayloadType, Vec<PointOffsetType>)>,
)
    requires
        old(container).wf(),
        old(container).points().len() == 0,
        old(container)@ == Map::<IntPayloadType, Seq<PointOffsetType>>::empty(),
        table_distinct(table@),
        table_pairs(table@) <= container_limit(),
    ensures
        final(container).wf(),
        final(container).points().len() == table_pairs(table@),
        final(container).tombstones() == old(container).tombstones(),
        forall|v: IntPayloadType, p: PointOffsetType|
            final(container).has(v, p) <==> table_has(table@, v, p),
{
    let mut i: usize = 0;
    assert(table@.take(0) =~= Seq::empty());
    while i < table.len()
        invariant
            i <= table.len(),
            table_distinct(table@),
            table_pairs(table@) <= container_limit(),
            container.wf(),
            container.tombstones() == old(container).tombstones(),
            container.points().len() == table_pairs(table@.take(i as int)),
            forall|v: IntPayloadType, p: PointOffsetType|
                container.has(v, p) <==> table_has(table@.take(i as int), v, p),
            forall|v: IntPayloadType| #[trigger]
                container@.contains_key(v) ==> exists|j: int|
                    0 <= j < i && (#[trigger] table@[j]).0 == v,
        decreases table.len() - i,
    {
        let value: IntPayloadType = table[i].0;
        let ids = &table[i].1;
        let ghost done = table@.take(i as int);
        let ghost before = *container;
        // Copy the points of the row, and sort them:
        // this is very important, because the run is searched by halving
        let mut points: Vec<PointOffsetType> = Vec::new();
        let mut k: usize = 0;
        while k < ids.len()
            invariant
                k <= ids.len(),
                points@ == ids@.take(k as int),
            decreases ids.len() - k,
        {
            points.push(ids[k]);
            assert(points@ =~= ids@.take(k + 1));
            k += 1;
        }
        assert(ids@.take(ids.len() as int) =~= ids@);
        sort_unstable(&mut points);
        proof {
            lemma_sorted_distinct(ids@, points@);
            lemma_table_pairs_prefix(table@, i as int);
            lemma_table_pairs_prefix(table@, i + 1);
            assert(!before@.contains_key(value)) by {
                if before@.contains_key(value) {
                    let j = choose|j: int| 0 <= j < i && (#[trigger] table@[j]).0 == value;
                    assert(table@[j].0 != table@[i as int].0);
                }
            }
        }
        container.allocate(value, &points);
        proof {
            let next = table@.take(i + 1);
            assert(next =~= done.push(table@[i as int]));
            crate::storage::lemma_table_push(done, table@[i as int]);
            assert forall|v: IntPayloadType, p: PointOffsetType|
                container.has(v, p) <==> table_has(next, v, p) by {
                if v == value {
                    assert(!before.has(v, p));
                    assert(points@.contains(p) <==> ids@.contains(p));
                } else {
                    assert(container.has(v, p) <==> before.has(v, p));
                }
            }
            assert forall|v: IntPayloadType| #[trigger] container@.contains_key(v) implies exists|
                j: int,
            |
                0 <= j < i + 1 && (#[trigger] table@[j]).0 == v by {
                if v == value {
                    assert(table@[i as int].0 == v);
                } else {
                    assert(before@.contains_key(v));
                    let j = choose|j: int| 0 <= j < i && (#[trigger] table@[j]).0 == v;
                    assert(table@[j].0 == v);
                }
            }
        }
        i += 1;
    }
    assert(table@.take(table.len() as int) =~= table@);
}

/// What a value-to-points relation looks like once `point` has lost the
/// values in `values`, and no others.
pub open spec fn purge_some(
    view: Map<IntPayloadType, Seq<PointOffsetType>>,
    values: Seq<IntPayloadType>,
    point: PointOffsetType,
) -> Map<IntPayloadType, Seq<PointOffsetType>> {
    Map::new(
        |value: IntPayloadType|
            view.contains_key(value) && (values.contains(value) ==> without_point(
                view[value],
                point,
            ).len() > 0),
        |value: IntPayloadType|
            if values.contains(value) {
                without_point(view[value], point)
            } else {
                view[value]
            },
    )
}

/// Taking a point out of the run of one more of its values.
proof fn lemma_purge_step(state: IndexState, idx: PointOffsetType, k: int)
    requires
        state.consistent(),
        idx < state.point_to_values.len(),
        0 <= k < state.point_to_values[idx as int].len(),
    ensures
        removal(
            purge_some(state.value_to_points, state.point_to_values[idx as int].take(k), idx),
            state.point_to_values[idx as int][k],
            idx,
        ) == purge_some(state.value_to_points, state.point_to_values[idx as int].take(k + 1), idx),
{
    let values = state.point_to_values[idx as int];
    let value = values[k];
    let view = state.value_to_points;
    let current = purge_some(view, values.take(k), idx);
    assert(values.take(k + 1) =~= values.take(k).push(value));
    assert(values.no_duplicates());
    assert(!values.take(k).contains(value)) by {
        if values.take(k).contains(value) {
            let m = choose|m: int| 0 <= m < values.take(k).len() && values.take(k)[m] == value;
            assert(values[m] == values[k]);
        }
    }
    assert(values.contains(value));
    assert(state.has(value, idx));
    assert(current.contains_key(value) && current[value] == view[value]);
    assert(removal(current, value, idx) =~= purge_some(view, values.take(k + 1), idx));
}

/// Once a point has lost all its values, it is in no run at all.
proof fn lemma_purge_all(state: IndexState, idx: PointOffsetType)
    requires
        state.consistent(),
        idx < state.point_to_values.len(),
    ensures
        purge_some(state.value_to_points, state.point_to_values[idx as int], idx) == purge(
            state.value_to_points,
            idx,
        ),
{
    let values = state.point_to_values[idx as int];
    let view = state.value_to_points;
    assert forall|value: IntPayloadType|
        view.contains_key(value) && !values.contains(value) implies without_point(
        view[value],
        idx,
    ) == view[value] && view[value].len() > 0 by {
        assert(!state.has(value, idx));
        lemma_without_absent(view[value], idx);
    }
    assert(purge_some(view, values, idx) =~= purge(view, idx));
}

/// A value index over integer payload values.
pub struct ImmutableMapIndex {
    value_to_points: FlatPointsContainer,
    point_to_values: ImmutablePointToValues,
    /// Number of points which have at least one indexed payload value
    indexed_points: usize,
    values_count: usize,
    /// Backing storage, source of state, persists deletions
    storage: Storage,
}

impl View for ImmutableMapIndex {
    type V = IndexState;

    /// What the index holds in memory.
    closed spec fn view(&self) -> IndexState {
        IndexState {
            value_to_points: self.value_to_points@,
            point_to_values: self.point_to_values@,
            indexed_points: self.indexed_points as nat,
            values_count: self.values_count as nat,
        }
    }
}

impl ImmutableMapIndex {
    /// The backing storage as it stands.
    pub closed spec fn storage(&self) -> Storage {
        self.storage
    }

    /// The flat points container of the index: the shared array of point
    /// identifiers, the ranges of the values in it, and the tombstone bits.
    pub closed spec fn container(&self) -> FlatPointsContainer {
        self.value_to_points
    }

    /// The invariant of the index: its parts are well formed, and what it holds
    /// in memory is consistent.
    pub closed spec fn wf(&self) -> bool {
        &&& self.value_to_points.wf()
        &&& self.point_to_values.wf()
        &&& self.storage.wf()
        &&& self@.consistent()
    }

    /// Whether memory and backing storage pair the same values with the same
    /// points, counting scheduled deletes as done.
    pub open spec fn in_sync(&self) -> bool {
        self@.relation() == self.storage().relation()
    }

    /// What the invariant says to the outside.
    pub proof fn lemma_wf(&self)
        requires
            self.wf(),
        ensures
            self@.consistent(),
            self.storage().wf(),
            self.container().wf(),
            self@.value_to_points == self.container()@,
    {
    }

    /// Flushing an index and opening another one on what the store then holds
    /// gives the same index back: for every value the same run of live points,
    /// the same points with values, for every point the same values, and the
    /// same counters.
    pub proof fn lemma_reopen_round_trip(&self, flushed: Storage, reopened: Self)
        requires
            self.wf(),
            self.in_sync(),
            flushed.persisted() == self.storage().relation(),
            reopened.wf(),
            reopened@.relation() == flushed.persisted(),
        ensures
            reopened@.value_to_points == self@.value_to_points,
            reopened@.live_points() == self@.live_points(),
            reopened@.values_count == self@.values_count,
            reopened@.indexed_points == self@.indexed_points,
            forall|value: IntPayloadType, point: PointOffsetType|
                lists_have(reopened@.point_to_values, value, point) == lists_have(
                    self@.point_to_values,
                    value,
                    point,
                ),
    {
        lemma_relation_settles_runs(self@, reopened@);
    }

    /// An index over a store, with nothing in memory yet.
    fn open(storage: Storage) -> (index: Self)
        requires
            storage.wf(),
        ensures
            index.wf(),
            index.storage() == storage,
            index@.value_to_points == Map::<IntPayloadType, Seq<PointOffsetType>>::empty(),
            index@.point_to_values == Seq::<Seq<IntPayloadType>>::empty(),
            index@.indexed_points == 0,
            index@.values_count == 0,
            index.container().points().len() == 0,
            index.container().tombstones().len() == 0,
    {
        ImmutableMapIndex {
            value_to_points: FlatPointsContainer::new(),
            point_to_values: ImmutablePointToValues::empty(),
            indexed_points: 0,
            values_count: 0,
            storage,
        }
    }

    /// Opens an index on a column of the transactional store.
    ///
    /// After opening, the data must be loaded into memory separately with
    /// [`ImmutableMapIndex::load`].
    pub fn open_rocksdb(db: TransactionalStore) -> (index: Self)
        requires
            db.wf(),
        ensures
            index.wf(),
            index.storage() == Storage::RocksDb(db),
            index@.value_to_points == Map::<IntPayloadType, Seq<PointOffsetType>>::empty(),
            index@.point_to_values == Seq::<Seq<IntPayloadType>>::empty(),
            index@.indexed_points == 0,
            index@.values_count == 0,
            index.container().points().len() == 0,
            index.container().tombstones().len() == 0,
    {
        Self::open(Storage::RocksDb(db))
    }

    /// Opens an index on a memory-mapped table.
    ///
    /// After opening, the data must be loaded into memory separately with
    /// [`ImmutableMapIndex::load`].
    pub fn open_mmap(index: MmapStore) -> (opened: Self)
        requires
            index.wf(),
        ensures
            opened.wf(),
            opened.storage() == Storage::Mmap(Box::new(index)),
            opened@.value_to_points == Map::<IntPayloadType, Seq<PointOffsetType>>::empty(),
            opened@.point_to_values == Seq::<Seq<IntPayloadType>>::empty(),
            opened@.indexed_points == 0,
            opened@.values_count == 0,
            opened.container().points().len() == 0,
            opened.container().tombstones().len() == 0,
    {
        Self::open(Storage::Mmap(Box::new(index)))
    }

    /// Fills the index in memory from a table of values and their points.
    fn load_table(&mut self, table: &Vec<(IntPayloadType, Vec<PointOffsetType>)>)
        requires
            old(self).wf(),
            table_distinct(table@),
            table_pairs(table@) <= container_limit(),
        ensures
            final(self).wf(),
            final(self).storage() == old(self).storage(),
            forall|v: IntPayloadType, p: PointOffsetType|
                final(self)@.has(v, p) <==> table_has(table@, v, p),
            final(self)@.point_to_values.len() == 0 || final(self)@.point_to_values.last().len()
                > 0,
            final(self).container().points().len() == table_pairs(table@),
            final(self).container().tombstones().len() == 0,
            final(self)@.values_count == table_pairs(table@),
    {
        let (lists, indexed_points, values_count) = build_reverse(table);
        self.indexed_points = indexed_points;
        self.values_count = values_count;
        self.value_to_points.clear();
        build_forward(&mut self.value_to_points, table);
        let ghost built = lists_view(lists@);
        self.point_to_values = ImmutablePointToValues::new(lists);
        proof {
            assert(self@.point_to_values =~= built);
            assert forall|v: IntPayloadType, p: PointOffsetType|
                self@.has(v, p) <==> table_has(table@, v, p) by {
                assert(self@.has(v, p) == self.value_to_points.has(v, p));
            }
            assert forall|v: IntPayloadType, p: PointOffsetType|
                self@.has(v, p) <==> p < self@.point_to_values.len() && self@.point_to_values[p as int].contains(
                    v,
                ) by {
                assert(lists_have(built, v, p) <==> table_has(table@, v, p));
            }
            assert forall|v: IntPayloadType| #[trigger]
                self@.value_to_points.contains_key(v) implies strictly_ascending(
                self@.value_to_points[v],
            ) && self@.value_to_points[v].len() > 0 by {
                self.value_to_points.lemma_live_points_ascending(v);
            }
            assert(self@.value_to_points.dom() =~= self.value_to_points.segments().dom());
        }
    }

    /// Loads the index from its backing storage, whichever kind it is, and says
    /// whether there was anything to load. Finding nothing is no error: an empty
    /// index is a valid one.
    pub fn load(&mut self) -> (result: OperationResult<bool>)
        requires
            old(self).wf(),
        ensures
            final(self).wf(),
            match result {
                Ok(loaded) => {
                    &&& loaded == old(self).storage().has_data()
                    &&& final(self).storage().persisted() == old(self).storage().persisted()
                    &&& final(self).storage().relation() == old(self).storage().relation()
                    &&& if loaded || old(self).storage() is RocksDb {
                        &&& final(self)@.relation() == old(self).storage().persisted()
                        &&& final(self)@.point_to_values.len() == 0
                            || final(self)@.point_to_values.last().len() > 0
                        &&& final(self).container().points().len() == final(self)@.values_count
                        &&& final(self).container().tombstones().len() == 0
                        &&& final(self)@.values_count == old(self).storage().persisted().len()
                        &&& final(self)@.indexed_points == points_of(
                            old(self).storage().persisted(),
                        ).len()
                    } else {
                        *final(self) == *old(self)
                    }
                    // the kind of storage stays, and so does what it holds
                    &&& match (old(self).storage(), final(self).storage()) {
                        (Storage::RocksDb(before), Storage::RocksDb(after)) => after == before,
                        (Storage::Mmap(before), Storage::Mmap(after)) => after.same_table(*before)
                            && after.cache_resident() == (before.cache_resident() && !loaded),
                        _ => false,
                    }
                },
                Err(_) => false,
            },
    {
        match self.storage {
            Storage::RocksDb(_) => self.load_rocksdb(),
            Storage::Mmap(_) => self.load_mmap(),
        }
    }

    /// Loads the index from the transactional store: replays the keys of the
    /// column, gives the points of every value a sorted run, and builds the
    /// reverse index. Fails, and changes nothing, when the index is backed by a
    /// memory-mapped table.
    pub fn load_rocksdb(&mut self) -> (result: OperationResult<bool>)
        requires
            old(self).wf(),
        ensures
            final(self).wf(),
            result is Ok <==> old(self).storage() is RocksDb,
            match result {
                Ok(loaded) => {
                    &&& loaded == old(self).storage().has_data()
                    &&& final(self).storage() == old(self).storage()
                    &&& final(self)@.relation() == old(self).storage().persisted()
                    &&& final(self)@.point_to_values.len() == 0
                        || final(self)@.point_to_values.last().len() > 0
                    &&& final(self).container().points().len() == final(self)@.values_count
                    &&& final(self).container().tombstones().len() == 0
                    &&& final(self)@.values_count == old(self).storage().persisted().len()
                    &&& final(self)@.indexed_points == points_of(
                        old(self).storage().persisted(),
                    ).len()
                },
                Err(error) => {
                    &&& *final(self) == *old(self)
                    &&& error is ServiceError
                    &&& error->ServiceError_description@
                        == "Failed to load index from RocksDB, using different storage backend"@
                },
            },
    {
        let (table, loaded) = match &self.storage {
            Storage::RocksDb(db_wrapper) => (
                db_wrapper.read_table(),
                db_wrapper.column_family_exists(),
            ),
            Storage::Mmap(_) => {
                return Err(
                    OperationError::service_error(
                        "Failed to load index from RocksDB, using different storage backend",
                    ),
                );
            },
        };
        self.load_table(&table);
        proof {
            let persisted = old(self).storage().persisted();
            assert forall|pair: (IntPayloadType, PointOffsetType)|
                self@.relation().contains(pair) <==> persisted.contains(pair) by {
                assert(self@.has(pair.0, pair.1) <==> table_has(table@, pair.0, pair.1));
            }
            assert(self@.relation() =~= persisted);
            lemma_counters_count(self@);
            lemma_live_points_of_relation(self@);
        }
        Ok(loaded)
    }

    /// Loads the index from the memory-mapped table: reads the rows without the
    /// points that the table has tombstones for, builds the reverse index,
    /// gives the points of every value a sorted run, and lets go of the page
    /// cache of the table. A table that has not been written leaves the index
    /// as it is. Fails, and changes nothing, when the index is backed by the
    /// transactional store.
    pub fn load_mmap(&mut self) -> (result: OperationResult<bool>)
        requires
            old(self).wf(),
        ensures
            final(self).wf(),
            result is Ok <==> old(self).storage() is Mmap,
            match result {
                Ok(loaded) => {
                    &&& loaded == old(self).storage().has_data()
                    &&& final(self).storage().relation() == old(self).storage().relation()
                    &&& if loaded {
                        &&& final(self)@.relation() == old(self).storage().relation()
                        &&& final(self)@.point_to_values.len() == 0
                            || final(self)@.point_to_values.last().len() > 0
                        &&& final(self).container().points().len() == final(self)@.values_count
                        &&& final(self).container().tombstones().len() == 0
                        &&& final(self)@.values_count == old(self).storage().relation().len()
                        &&& final(self)@.indexed_points == points_of(
                            old(self).storage().relation(),
                        ).len()
                        &&& final(self).storage() is Mmap
                        &&& final(self).storage()->Mmap_0.same_table(
                            *old(self).storage()->Mmap_0,
                        )
                        &&& !final(self).storage()->Mmap_0.cache_resident()
                    } else {
                        *final(self) == *old(self)
                    }
                },
                Err(error) => {
                    &&& *final(self) == *old(self)
                    &&& error is ServiceError
                    &&& error->ServiceError_description@
                        == "Failed to load index from mmap, using different storage backend"@
                },
            },
    {
        let table = match &self.storage {
            Storage::Mmap(index) => {
                if !index.load() {
                    return Ok(false);
                }
                index.read_table()
            },
            Storage::RocksDb(_) => {
                return Err(
                    OperationError::service_error(
                        "Failed to load index from mmap, using different storage backend",
                    ),
                );
            },
        };
        self.load_table(&table);
        // Index is now loaded into memory, clear cache of backing mmap storage
        match &mut self.storage {
            Storage::Mmap(index) => {
                index.clear_cache();
            },
            Storage::RocksDb(_) => {},
        }
        proof {
            let stored = old(self).storage().relation();
            assert(self.storage().relation() =~= stored);
            assert forall|pair: (IntPayloadType, PointOffsetType)|
                self@.relation().contains(pair) <==> stored.contains(pair) by {
                assert(self@.has(pair.0, pair.1) <==> table_has(table@, pair.0, pair.1));
            }
            assert(self@.relation() =~= stored);
            lemma_counters_count(self@);
            lemma_live_points_of_relation(self@);
        }
        Ok(true)
    }

    /// Removes point `idx` from the index: takes it out of the run of each of
    /// its values, passes each removal on to the backing storage, lowers the
    /// counters by what the point contributed, and clears its entry in the
    /// reverse index. The transactional store gets a delete scheduled for the
    /// key of every value of the point; the memory-mapped table gets the
    /// tombstone of the point set. For a point without values, removed before or
    /// never indexed, nothing changes at all.
    pub fn remove_point(&mut self, idx: PointOffsetType) -> (result: OperationResult<()>)
        requires
            old(self).wf(),
        ensures
            result is Ok,
            final(self).wf(),
            final(self)@ == old(self)@.remove_point(idx),
            old(self).in_sync() ==> final(self).in_sync(),
            final(self).storage().has_data() == old(self).storage().has_data(),
            // the flat container keeps its array and the range of every value that
            // is left: nothing is moved, compacted or reclaimed, slots are only flagged
            final(self).container().points() == old(self).container().points(),
            forall|v: IntPayloadType| #[trigger]
                final(self).container().segments().contains_key(v) ==> old(
                    self,
                ).container().segments().contains_key(v)
                    && final(self).container().segments()[v].start == old(
                    self,
                ).container().segments()[v].start && final(self).container().segments()[v].end
                    == old(self).container().segments()[v].end,
            forall|pos: int|
                tombstoned(old(self).container().tombstones(), pos) ==> tombstoned(
                    final(self).container().tombstones(),
                    pos,
                ),
            forall|pos: int|
                tombstoned(final(self).container().tombstones(), pos) && !tombstoned(
                    old(self).container().tombstones(),
                    pos,
                ) ==> 0 <= pos < old(self).container().points().len() && old(
                    self,
                ).container().points()[pos] == idx,
            !lists_have_any(old(self)@.point_to_values, idx) ==> final(self).container() == old(
                self,
            ).container(),
            match (old(self).storage(), final(self).storage()) {
                (Storage::RocksDb(before), Storage::RocksDb(after)) => {
                    &&& after.persisted() == before.persisted()
                    &&& forall|pair: (IntPayloadType, PointOffsetType)|
                        after.scheduled().contains(pair) <==> before.scheduled().contains(pair) || (
                        pair.1 == idx && lists_have(old(self)@.point_to_values, pair.0, idx))
                },
                (Storage::Mmap(before), Storage::Mmap(after)) => {
                    &&& after.table() == before.table()
                    &&& after.is_populated() == before.is_populated()
                    &&& after.on_disk() == before.on_disk()
                    &&& after.file_names() == before.file_names()
                    &&& after.immutable_file_names() == before.immutable_file_names()
                    &&& after.cache_resident() == before.cache_resident()
                    &&& after.deleted_flags() == if idx < old(self)@.point_to_values.len() && old(
                        self,
                    )@.point_to_values[idx as int].len() > 0 && idx < before.deleted_flags().len() {
                        before.deleted_flags().update(idx as int, true)
                    } else {
                        before.deleted_flags()
                    }
                },
                _ => false,
            },
    {
        let ghost before = *old(self);
        proof {
            lemma_remove_point_consistent(before@, idx);
        }
        let removed_values = match self.point_to_values.get_values(idx) {
            Some(removed_values) => removed_values,
            None => {
                return Ok(());
            },
        };
        let ghost values = before@.point_to_values[idx as int];
        let removed_values_count: usize = removed_values.len();
        let mut k: usize = 0;
        while k < removed_values.len()
            invariant
                k <= removed_values.len(),
                before.wf(),
                idx < before@.point_to_values.len(),
                values == before@.point_to_values[idx as int],
                removed_values@ == values,
                self.point_to_values == before.point_to_values,
                self.indexed_points == before.indexed_points,
                self.values_count == before.values_count,
                self.value_to_points.wf(),
                self.storage.wf(),
                self.value_to_points@ == purge_some(
                    before@.value_to_points,
                    values.take(k as int),
                    idx,
                ),
                k == 0 ==> self.value_to_points == before.value_to_points,
                self.value_to_points.points() == before.value_to_points.points(),
                forall|v: IntPayloadType| #[trigger]
                    self.value_to_points.segments().contains_key(v)
                        ==> before.value_to_points.segments().contains_key(v)
                        && self.value_to_points.segments()[v].start
                        == before.value_to_points.segments()[v].start
                        && self.value_to_points.segments()[v].end
                        == before.value_to_points.segments()[v].end,
                forall|pos: int|
                    tombstoned(before.value_to_points.tombstones(), pos) ==> tombstoned(
                        self.value_to_points.tombstones(),
                        pos,
                    ),
                forall|pos: int|
                    tombstoned(self.value_to_points.tombstones(), pos) && !tombstoned(
                        before.value_to_points.tombstones(),
                        pos,
                    ) ==> 0 <= pos < before.value_to_points.points().len()
                        && before.value_to_points.points()[pos] == idx,
                self.storage.has_data() == before.storage.has_data(),
                match (before.storage, self.storage) {
                    (Storage::RocksDb(was), Storage::RocksDb(now)) => {
                        &&& now.persisted() == was.persisted()
                        &&& forall|pair: (IntPayloadType, PointOffsetType)|
                            now.scheduled().contains(pair) <==> was.scheduled().contains(pair) || (
                            pair.1 == idx && values.take(k as int).contains(pair.0))
                    },
                    (Storage::Mmap(was), Storage::Mmap(now)) => {
                        &&& now.table() == was.table()
                        &&& now.is_populated() == was.is_populated()
                        &&& now.on_disk() == was.on_disk()
                        &&& now.file_names() == was.file_names()
                        &&& now.immutable_file_names() == was.immutable_file_names()
                        &&& now.cache_resident() == was.cache_resident()
                        &&& now.deleted_flags() == if k > 0 && idx < was.deleted_flags().len() {
                            was.deleted_flags().update(idx as int, true)
                        } else {
                            was.deleted_flags()
                        }
                    },
                    _ => false,
                },
            decreases removed_values.len() - k,
        {
            let value = removed_values[k];
            proof {
                lemma_purge_step(before@, idx, k as int);
                assert(values.take(k + 1) =~= values.take(k as int).push(value));
            }
            let ghost reached = self.value_to_points;
            self.value_to_points.remove_idx_from_value_list(value, idx);
            proof {
                // the bits change in the slot of the point at most
                if reached.has(value, idx) {
                    let slot = reached.slot_of(value, idx);
                    assert(reached.segment_wf(reached.segments()[value]));
                    assert forall|pos: int|
                        tombstoned(self.value_to_points.tombstones(), pos) == (tombstoned(
                            reached.tombstones(),
                            pos,
                        ) || pos == slot) by {}
                }
            }

            // Update persisted storage
            match &mut self.storage {
                Storage::RocksDb(db_wrapper) => {
                    db_wrapper.remove(value, idx);
                },
                Storage::Mmap(index) => {
                    let ghost flags = index.deleted_flags();
                    index.remove_point(idx);
                    proof {
                        if idx < flags.len() {
                            assert(flags.update(idx as int, true).update(idx as int, true)
                                =~= flags.update(idx as int, true));
                        }
                    }
                },
            }
            k += 1;
        }
        proof {
            assert(values.take(values.len() as int) =~= values);
            lemma_purge_all(before@, idx);
            lemma_totals_update(before@.point_to_values, idx as int, Seq::<IntPayloadType>::empty());
            before.lemma_wf();
        }
        if removed_values_count > 0 {
            self.indexed_points -= 1;
        }
        self.values_count = if self.values_count >= removed_values_count {
            self.values_count - removed_values_count
        } else {
            0
        };
        self.point_to_values.remove_point(idx);
        proof {
            assert(self@.point_to_values =~= before@.remove_point(idx).point_to_values);
            assert(self@ == before@.remove_point(idx));
            if before.in_sync() {
                assert forall|pair: (IntPayloadType, PointOffsetType)|
                    self@.relation().contains(pair) <==> self.storage().relation().contains(
                        pair,
                    ) by {
                    assert(before@.relation().contains(pair) == before.storage().relation().contains(
                        pair,
                    ));
                    assert(self@.has(pair.0, pair.1) <==> before@.has(pair.0, pair.1) && pair.1
                        != idx);
                    assert(before@.has(pair.0, pair.1) == before@.relation().contains(pair));
                    assert(before@.has(pair.0, idx) <==> lists_have(
                        before@.point_to_values,
                        pair.0,
                        idx,
                    ));
                    match (before.storage, self.storage) {
                        (Storage::Mmap(was), Storage::Mmap(now)) => {
                            if values.len() == 0 {
                                assert(now.relation() =~= was.relation());
                            } else {
                                assert(values.contains(values[0]));
                                assert(before@.has(values[0], idx));
                                assert(was.relation().contains((values[0], idx)));
                                let i = choose|i: int|
                                    0 <= i < was.table().len() && (#[trigger] was.table()[i]).0
                                        == values[0] && was.table()[i].1@.contains(idx);
                                let m = choose|m: int|
                                    0 <= m < was.table()[i].1@.len() && was.table()[i].1@[m] == idx;
                                assert(was.table()[i].1@[m] < was.deleted_flags().len());
                            }
                        },
                        _ => {},
                    }
                }
                assert(self@.relation() =~= self.storage().relation());
            }
        }
        Ok(())
    }

    /// The transactional store behind the index, if that is its kind of storage.
    pub fn db_wrapper(&self) -> (store: Option<&TransactionalStore>)
        ensures
            store == match self.storage() {
                Storage::RocksDb(db) => Some(&db),
                Storage::Mmap(_) => None,
            },
    {
        match &self.storage {
            Storage::RocksDb(db_wrapper) => Some(db_wrapper),
            Storage::Mmap(_) => None,
        }
    }

    /// Closes the index and hands its backing storage back, as it stands, so
    /// that it can be opened again.
    pub fn into_storage(self) -> (storage: Storage)
        ensures
            storage == self.storage(),
    {
        self.storage
    }

    /// Removes everything the index has in its backing storage and hands the
    /// emptied store back. The index itself is used up.
    pub fn wipe(self) -> (wiped: OperationResult<Storage>)
        ensures
            match wiped {
                Ok(storage) => {
                    &&& storage.wf()
                    &&& storage.persisted() == Relation::empty()
                    &&& !storage.has_data()
                    &&& storage is RocksDb <==> self.storage() is RocksDb
                },
                Err(_) => false,
            },
    {
        match self.storage {
            Storage::RocksDb(mut db_wrapper) => {
                db_wrapper.remove_column_family();
                Ok(Storage::RocksDb(db_wrapper))
            },
            Storage::Mmap(mut index) => {
                index.wipe();
                Ok(Storage::Mmap(index))
            },
        }
    }

    /// Lets go of what the backing storage holds in the page cache. Only a
    /// memory-mapped table has anything there. What the index holds in memory
    /// stays.
    pub fn clear_cache(&mut self) -> (cleared: OperationResult<()>)
        requires
            old(self).wf(),
        ensures
            cleared is Ok,
            final(self).wf(),
            final(self)@ == old(self)@,
            final(self).storage().relation() == old(self).storage().relation(),
            final(self).storage().persisted() == old(self).storage().persisted(),
            final(self).storage().has_data() == old(self).storage().has_data(),
            final(self).container() == old(self).container(),
            match (old(self).storage(), final(self).storage()) {
                (Storage::RocksDb(before), Storage::RocksDb(after)) => after == before,
                (Storage::Mmap(before), Storage::Mmap(after)) => after.same_table(*before)
                    && !after.cache_resident(),
                _ => false,
            },
    {
        match &mut self.storage {
            Storage::RocksDb(_) => {},
            Storage::Mmap(index) => {
                index.clear_cache();
            },
        }
        Ok(())
    }

    /// The files that back the index. The transactional store owns no files of
    /// its own.
    pub fn files(&self) -> (names: Vec<String>)
        ensures
            names@ == match self.storage() {
                Storage::RocksDb(_) => Seq::<String>::empty(),
                Storage::Mmap(index) => index.file_names(),
            },
    {
        match &self.storage {
            Storage::RocksDb(_) => Vec::new(),
            Storage::Mmap(index) => index.files(),
        }
    }

    /// The files that back the index and are never written again.
    pub fn immutable_files(&self) -> (names: Vec<String>)
        ensures
            names@ == match self.storage() {
                Storage::RocksDb(_) => Seq::<String>::empty(),
                Storage::Mmap(index) => index.immutable_file_names(),
            },
    {
        match &self.storage {
            Storage::RocksDb(_) => Vec::new(),
            Storage::Mmap(index) => index.immutable_files(),
        }
    }

    /// Makes the removals durable. The transactional store carries out its
    /// scheduled deletes; a memory-mapped table has written its tombstones in
    /// place already.
    pub fn flusher(&mut self) -> (flushed: OperationResult<()>)
        requires
            old(self).wf(),
        ensures
            flushed is Ok,
            final(self).wf(),
            final(self)@ == old(self)@,
            final(self).storage().persisted() == old(self).storage().relation(),
            final(self).storage().relation() == old(self).storage().relation(),
            final(self).storage().has_data() == old(self).storage().has_data(),
            final(self).storage() is RocksDb <==> old(self).storage() is RocksDb,
            old(self).storage() is Mmap ==> final(self).storage() == old(self).storage(),
            final(self).container() == old(self).container(),
    {
        match &mut self.storage {
            Storage::RocksDb(db_wrapper) => {
                db_wrapper.flush();
                assert(db_wrapper.relation() =~= db_wrapper.persisted());
            },
            Storage::Mmap(_) => {},
        }
        Ok(())
    }

    /// Whether `check_fn` accepts one of the values of point `idx`.
    pub fn check_values_any(
        &self,
        idx: PointOffsetType,
        check_fn: impl Fn(&IntPayloadType) -> bool,
    ) -> (any: bool)
        requires
            self.wf(),
            idx < self@.point_to_values.len() ==> forall|i: int|
                0 <= i < self@.point_to_values[idx as int].len() ==> call_requires(
                    check_fn,
                    (&#[trigger] self@.point_to_values[idx as int][i],),
                ),
        ensures
            any ==> idx < self@.point_to_values.len() && exists|i: int|
                0 <= i < self@.point_to_values[idx as int].len() && call_ensures(
                    check_fn,
                    (&#[trigger] self@.point_to_values[idx as int][i],),
                    true,
                ),
            !any && idx < self@.point_to_values.len() ==> forall|i: int|
                0 <= i < self@.point_to_values[idx as int].len() ==> call_ensures(
                    check_fn,
                    (&#[trigger] self@.point_to_values[idx as int][i],),
                    false,
                ),
    {
        self.point_to_values.check_values_any(idx, check_fn)
    }

    /// The values of point `idx`; nothing for a point the index was not loaded
    /// for.
    pub fn get_values(&self, idx: PointOffsetType) -> (values: Option<&[IntPayloadType]>)
        requires
            self.wf(),
        ensures
            match values {
                Some(list) => idx < self@.point_to_values.len() && list@
                    == self@.point_to_values[idx as int],
                None => idx >= self@.point_to_values.len(),
            },
    {
        self.point_to_values.get_values(idx)
    }

    /// How many values point `idx` has; nothing for a point the index was not
    /// loaded for.
    pub fn values_count(&self, idx: PointOffsetType) -> (count: Option<usize>)
        requires
            self.wf(),
        ensures
            count == if idx < self@.point_to_values.len() {
                Some(self@.point_to_values[idx as int].len() as usize)
            } else {
                None
            },
    {
        self.point_to_values.get_values_count(idx)
    }

    /// The number of points that have at least one value.
    pub fn get_indexed_points(&self) -> (count: usize)
        ensures
            count == self@.indexed_points,
    {
        self.indexed_points
    }

    /// The number of values that all points have together.
    pub fn get_values_count(&self) -> (count: usize)
        ensures
            count == self@.values_count,
    {
        self.values_count
    }

    /// The number of values that have a live point.
    pub fn get_unique_values_count(&self) -> (count: usize)
        requires
            self.wf(),
        ensures
            count == self@.value_to_points.dom().len(),
    {
        self.value_to_points.unique_values_count()
    }

    /// How many live points `value` has; nothing for a value without any.
    pub fn get_count_for_value(&self, value: IntPayloadType) -> (count: Option<usize>)
        requires
            self.wf(),
        ensures
            count == if self@.value_to_points.contains_key(value) {
                Some(self@.value_to_points[value].len() as usize)
            } else {
                None
            },
    {
        self.value_to_points.get_count_for_value(value)
    }

    /// The live points of `value`, in strictly ascending order; empty for a
    /// value without any.
    pub fn get_iterator(&self, value: IntPayloadType) -> (ids: Vec<PointOffsetType>)
        requires
            self.wf(),
        ensures
            ids@ == if self@.value_to_points.contains_key(value) {
                self@.value_to_points[value]
            } else {
                Seq::<PointOffsetType>::empty()
            },
            strictly_ascending(ids@),
    {
        proof {
            self.value_to_points.lemma_live_points_ascending(value);
        }
        self.value_to_points.get_iterator(value)
    }

    /// Every value that has a live point, once each, in no particular order.
    pub fn iter_values(&self) -> (values: Vec<IntPayloadType>)
        requires
            self.wf(),
        ensures
            values@.no_duplicates(),
            values@.to_set() == self@.value_to_points.dom(),
    {
        self.value_to_points.values()
    }

    /// Every value that has a live point, once each and in no particular
    /// order, with the number of its live points.
    pub fn iter_counts_per_value(&self) -> (counts: Vec<(IntPayloadType, usize)>)
        requires
            self.wf(),
        ensures
            counts@.len() == self@.value_to_points.dom().len(),
            forall|i: int, j: int|
                0 <= i < j < counts@.len() ==> (#[trigger] counts@[i]).0 != (#[trigger] counts@[j]).0,
            forall|i: int|
                0 <= i < counts@.len() ==> self@.value_to_points.contains_key(
                    (#[trigger] counts@[i]).0,
                ) && counts@[i].1 == self@.value_to_points[counts@[i].0].len(),
            forall|value: IntPayloadType|
                self@.value_to_points.contains_key(value) ==> listed(
                    counts@,
                    counts@.len() as int,
                    value,
                ),
            counts_total(counts@) == self@.values_count,
    {
        let values = self.value_to_points.values();
        proof {
            values@.unique_seq_to_set();
        }
        let mut counts: Vec<(IntPayloadType, usize)> = Vec::new();
        let mut i: usize = 0;
        while i < values.len()
            invariant
                i <= values.len(),
                self.wf(),
                values@.to_set() == self@.value_to_points.dom(),
                counts@.len() == i,
                forall|j: int| 0 <= j < i ==> (#[trigger] counts@[j]).0 == values@[j],
                forall|j: int|
                    0 <= j < i ==> (#[trigger] counts@[j]).1
                        == self@.value_to_points[values@[j]].len(),
            decreases values.len() - i,
        {
            let value = values[i];
            assert(values@.to_set().contains(value));
            let count = match self.value_to_points.get_count_for_value(value) {
                Some(count) => count,
                None => 0,
            };
            counts.push((value, count));
            i += 1;
        }
        proof {
            assert forall|i: int| 0 <= i < counts@.len() implies self@.value_to_points.contains_key(
                (#[trigger] counts@[i]).0,
            ) by {
                assert(values@.to_set().contains(values@[i]));
            }
            assert forall|value: IntPayloadType|
                self@.value_to_points.contains_key(value) implies listed(
                counts@,
                counts@.len() as int,
                value,
            ) by {
                assert(values@.to_set().contains(value));
                let j = choose|j: int| 0 <= j < values@.len() && values@[j] == value;
                assert(counts@[j].0 == value);
            }
            lemma_counts_total(self@, counts@);
        }
        counts
    }

    /// Every value that has a live point, once each and in no particular
    /// order, with its live points in ascending order.
    pub fn iter_values_map(&self) -> (runs: Vec<(IntPayloadType, Vec<PointOffsetType>)>)
        requires
            self.wf(),
        ensures
            runs@.len() == self@.value_to_points.dom().len(),
            forall|i: int, j: int|
                0 <= i < j < runs@.len() ==> (#[trigger] runs@[i]).0 != (#[trigger] runs@[j]).0,
            forall|i: int|
                0 <= i < runs@.len() ==> self@.value_to_points.contains_key((#[trigger] runs@[i]).0)
                    && runs@[i].1@ == self@.value_to_points[runs@[i].0],
    {
        let values = self.value_to_points.values();
        proof {
            values@.unique_seq_to_set();
        }
        let mut runs: Vec<(IntPayloadType, Vec<PointOffsetType>)> = Vec::new();
        let mut i: usize = 0;
        while i < values.len()
            invariant
                i <= values.len(),
                self.wf(),
                values@.to_set() == self@.value_to_points.dom(),
                runs@.len() == i,
                forall|j: int| 0 <= j < i ==> (#[trigger] runs@[j]).0 == values@[j],
                forall|j: int|
                    0 <= j < i ==> (#[trigger] runs@[j]).1@ == self@.value_to_points[values@[j]],
            decreases values.len() - i,
        {
            let value = values[i];
            assert(values@.to_set().contains(value));
            let ids = self.get_iterator(value);
            runs.push((value, ids));
            i += 1;
        }
        proof {
            assert forall|i: int| 0 <= i < runs@.len() implies self@.value_to_points.contains_key(
                (#[trigger] runs@[i]).0,
            ) by {
                assert(values@.to_set().contains(values@[i]));
            }
        }
        runs
    }

    /// The kind of backing storage of the index.
    pub fn storage_type(&self) -> (kind: StorageType)
        ensures
            kind == match self.storage() {
                Storage::RocksDb(_) => StorageType::RocksDb,
                Storage::Mmap(index) => (StorageType::Mmap { is_on_disk: index.on_disk() }),
            },
    {
        match &self.storage {
            Storage::RocksDb(_) => StorageType::RocksDb,
            Storage::Mmap(index) => StorageType::Mmap { is_on_disk: index.is_on_disk() },
        }
    }

    /// Whether the index is backed by the transactional store.
    pub fn is_rocksdb(&self) -> (rocksdb: bool)
        ensures
            rocksdb == self.storage() is RocksDb,
    {
        match self.storage {
            Storage::RocksDb(_) => true,
            Storage::Mmap(_) => false,
        }
    }
}

} // verus!
