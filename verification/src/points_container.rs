//! The flat points container: one shared array of point identifiers in which
//! every indexed value owns a contiguous, ascending run, and a parallel run of
//! tombstone bits that marks removed slots without moving anything.

use crate::bits::{max_bits, BitVector};
use crate::sorted::{search_ascending, strictly_ascending};
use crate::{IntPayloadType, PointOffsetType};
use std::collections::HashMap;
use vstd::prelude::*;
use vstd::std_specs::iter::IteratorSpec;

verus! {

broadcast use vstd::std_specs::hash::group_hash_axioms;

/// The run of one value inside the flat container: the positions
/// `start..end`, and how many of the identifiers there are still live.
#[derive(Debug, Clone, Copy, PartialEq, Eq, Structural)]
pub struct ContainerSegment {
    /// First position of the run.
    pub start: u32,
    /// Position just past the run.
    pub end: u32,
    /// Number of identifiers in the run that have not been removed.
    pub count: u32,
}

/// Whether the slot at `pos` has been flagged as removed. Slots beyond the
/// recorded bits count as live.
pub open spec fn tombstoned(tombstones: Seq<bool>, pos: int) -> bool {
    0 <= pos < tombstones.len() && tombstones[pos]
}

/// The tombstone bits grown to `n` bits at least: what is recorded, and
/// unset bits behind it as far as needed.
pub open spec fn padded_flags(tombstones: Seq<bool>, n: nat) -> Seq<bool> {
    if tombstones.len() >= n {
        tombstones
    } else {
        tombstones + Seq::new((n - tombstones.len()) as nat, |i: int| false)
    }
}

/// The identifiers at the positions `start..end` whose slot is not flagged,
/// in the order in which they stand.
pub open spec fn live_ids(
    points: Seq<PointOffsetType>,
    tombstones: Seq<bool>,
    start: int,
    end: int,
) -> Seq<PointOffsetType>
    decreases end - start,
{
    if end <= start {
        Seq::empty()
    } else if tombstoned(tombstones, end - 1) {
        live_ids(points, tombstones, start, end - 1)
    } else {
        live_ids(points, tombstones, start, end - 1).push(points[end - 1])
    }
}

/// A run of identifiers with every occurrence of `point` taken out.
pub open spec fn without_point(s: Seq<PointOffsetType>, point: PointOffsetType) -> Seq<
    PointOffsetType,
> {
    s.filter(|p: PointOffsetType| p != point)
}

/// What a value-to-points relation looks like once `point` no longer has
/// `value`: the value's run loses the point, and a value left without points
/// loses its entry.
pub open spec fn removal(
    view: Map<IntPayloadType, Seq<PointOffsetType>>,
    value: IntPayloadType,
    point: PointOffsetType,
) -> Map<IntPayloadType, Seq<PointOffsetType>> {
    if view.contains_key(value) && view[value].contains(point) {
        let rest = without_point(view[value], point);
        if rest.len() == 0 {
            view.remove(value)
        } else {
            view.insert(value, rest)
        }
    } else {
        view
    }
}

/// The most identifiers the flat container may hold: positions must fit both a
/// 32-bit range bound and the tombstone bit-vector.
pub open spec fn container_limit() -> int {
    if max_bits() < u32::MAX {
        max_bits()
    } else {
        u32::MAX as int
    }
}

/// The most identifiers the flat container may hold on this machine.
pub fn container_capacity() -> (limit: usize)
    ensures
        limit == container_limit(),
{
    let by_bits: usize = usize::MAX / 8;
    if by_bits < 0xFFFF_FFFF {
        by_bits
    } else {
        0xFFFF_FFFF
    }
}

/// A strictly ascending run stays so when its last slot is left off.
proof fn lemma_shorter_run_ascending(points: Seq<PointOffsetType>, start: int, end: int)
    requires
        0 <= start < end <= points.len(),
        strictly_ascending(points.subrange(start, end)),
    ensures
        strictly_ascending(points.subrange(start, end - 1)),
{
    let run = points.subrange(start, end);
    let shorter = points.subrange(start, end - 1);
    assert forall|i: int, j: int| 0 <= i < j < shorter.len() implies shorter[i] < shorter[j] by {
        assert(run[i] < run[j]);
    }
}

/// Slots that agree on identifier and flag give the same live identifiers.
pub proof fn lemma_live_frame(
    points_a: Seq<PointOffsetType>,
    flags_a: Seq<bool>,
    points_b: Seq<PointOffsetType>,
    flags_b: Seq<bool>,
    start: int,
    end: int,
)
    requires
        0 <= start,
        end <= points_a.len(),
        end <= points_b.len(),
        forall|i: int|
            start <= i < end ==> points_a[i] == points_b[i] && tombstoned(flags_a, i) == tombstoned(flags_b, i),
    ensures
        live_ids(points_a, flags_a, start, end) == live_ids(points_b, flags_b, start, end),
    decreases end - start,
{
    if start < end {
        lemma_live_frame(points_a, flags_a, points_b, flags_b, start, end - 1);
    }
}

/// A live identifier is one that stands in an unflagged slot of the run, and
/// there are no more live identifiers than slots.
pub proof fn lemma_live_members(
    points: Seq<PointOffsetType>,
    tombstones: Seq<bool>,
    start: int,
    end: int,
)
    requires
        0 <= start <= end <= points.len(),
    ensures
        live_ids(points, tombstones, start, end).len() <= end - start,
        forall|p: PointOffsetType|
            live_ids(points, tombstones, start, end).contains(p) <==> exists|i: int|
                start <= i < end && !tombstoned(tombstones, i) && #[trigger] points[i] == p,
    decreases end - start,
{
    let live = live_ids(points, tombstones, start, end);
    if start < end {
        let before = live_ids(points, tombstones, start, end - 1);
        lemma_live_members(points, tombstones, start, end - 1);
        assert forall|p: PointOffsetType| live.contains(p) <==> exists|i: int|
            start <= i < end && !tombstoned(tombstones, i) && #[trigger] points[i] == p by {
            if live.contains(p) {
                let k = choose|k: int| 0 <= k < live.len() && live[k] == p;
                if !tombstoned(tombstones, end - 1) && k == live.len() - 1 {
                    assert(points[end - 1] == p);
                } else {
                    assert(before[k] == p);
                    assert(before.contains(p));
                }
            }
            if exists|i: int|
                start <= i < end && !tombstoned(tombstones, i) && #[trigger] points[i] == p {
                let i = choose|i: int|
                    start <= i < end && !tombstoned(tombstones, i) && #[trigger] points[i] == p;
                if i == end - 1 {
                    assert(live[live.len() - 1] == p);
                } else {
                    assert(before.contains(p));
                    let k = choose|k: int| 0 <= k < before.len() && before[k] == p;
                    assert(live[k] == p);
                }
            }
        }
    } else {
        assert forall|p: PointOffsetType| !live.contains(p) by {}
    }
}

/// A run without flagged slots is live as it stands.
pub proof fn lemma_live_all(
    points: Seq<PointOffsetType>,
    tombstones: Seq<bool>,
    start: int,
    end: int,
)
    requires
        0 <= start <= end <= points.len(),
        forall|i: int| start <= i < end ==> !tombstoned(tombstones, i),
    ensures
        live_ids(points, tombstones, start, end) == points.subrange(start, end),
    decreases end - start,
{
    if start < end {
        lemma_live_all(points, tombstones, start, end - 1);
        assert(points.subrange(start, end - 1).push(points[end - 1]) =~= points.subrange(
            start,
            end,
        ));
    } else {
        assert(points.subrange(start, end) =~= Seq::empty());
    }
}

/// Flagging slots never disturbs the order: the live identifiers of a strictly
/// ascending run are strictly ascending.
pub proof fn lemma_live_ascending(
    points: Seq<PointOffsetType>,
    tombstones: Seq<bool>,
    start: int,
    end: int,
)
    requires
        0 <= start <= end <= points.len(),
        strictly_ascending(points.subrange(start, end)),
    ensures
        strictly_ascending(live_ids(points, tombstones, start, end)),
    decreases end - start,
{
    let run = points.subrange(start, end);
    let live = live_ids(points, tombstones, start, end);
    if start < end {
        let before = live_ids(points, tombstones, start, end - 1);
        lemma_shorter_run_ascending(points, start, end);
        lemma_live_ascending(points, tombstones, start, end - 1);
        lemma_live_members(points, tombstones, start, end - 1);
        if !tombstoned(tombstones, end - 1) {
            assert forall|i: int, j: int| 0 <= i < j < live.len() implies live[i] < live[j] by {
                if j == live.len() - 1 {
                    assert(before.contains(before[i]));
                    let k = choose|k: int|
                        start <= k < end - 1 && !tombstoned(tombstones, k) && #[trigger] points[k]
                            == before[i];
                    assert(run[k - start] < run[end - 1 - start]);
                } else {
                    assert(before[i] < before[j]);
                }
            }
        }
    }
}

/// Flagging one live slot of a strictly ascending run takes exactly the
/// identifier in that slot out of the live identifiers.
pub proof fn lemma_live_tombstone(
    points: Seq<PointOffsetType>,
    flags_a: Seq<bool>,
    flags_b: Seq<bool>,
    start: int,
    end: int,
    pos: int,
)
    requires
        0 <= start <= end <= points.len(),
        strictly_ascending(points.subrange(start, end)),
        !tombstoned(flags_a, pos),
        tombstoned(flags_b, pos),
        forall|i: int| start <= i < end && i != pos ==> tombstoned(flags_a, i) == tombstoned(flags_b, i),
    ensures
        start <= pos < end ==> live_ids(points, flags_b, start, end) == without_point(
            live_ids(points, flags_a, start, end),
            points[pos],
        ) && live_ids(points, flags_b, start, end).len() + 1 == live_ids(points, flags_a, start, end).len(),
        !(start <= pos < end) ==> live_ids(points, flags_b, start, end) == live_ids(
            points,
            flags_a,
            start,
            end,
        ),
    decreases end - start,
{
    reveal(Seq::filter);
    let run = points.subrange(start, end);
    if start < end {
        let last = end - 1;
        lemma_shorter_run_ascending(points, start, end);
        lemma_live_tombstone(points, flags_a, flags_b, start, last, pos);
        let old_before = live_ids(points, flags_a, start, last);
        let new_before = live_ids(points, flags_b, start, last);
        let removed = points[pos];
        if start <= pos < end {
            if last == pos {
                let old_live = old_before.push(removed);
                assert(old_live.drop_last() =~= old_before);
                // nothing before the flagged slot holds the same identifier
                lemma_live_members(points, flags_a, start, last);
                assert(!old_before.contains(removed)) by {
                    if old_before.contains(removed) {
                        let k = choose|k: int|
                            start <= k < last && !tombstoned(flags_a, k) && #[trigger] points[k]
                                == removed;
                        assert(run[k - start] < run[pos - start]);
                    }
                }
                lemma_without_absent(old_before, removed);
            } else {
                assert(run[pos - start] < run[last - start]);
                if !tombstoned(flags_a, last) {
                    let old_live = old_before.push(points[last]);
                    assert(old_live.drop_last() =~= old_before);
                }
            }
        } else {
            if !tombstoned(flags_a, last) {
                let old_live = old_before.push(points[last]);
                assert(old_live.drop_last() =~= old_before);
            }
        }
    } else {
        assert(without_point(Seq::<PointOffsetType>::empty(), points[pos]) =~= Seq::empty());
    }
}

/// Taking out a point that does not occur changes nothing.
pub proof fn lemma_without_absent(s: Seq<PointOffsetType>, point: PointOffsetType)
    requires
        !s.contains(point),
    ensures
        without_point(s, point) == s,
    decreases s.len(),
{
    reveal(Seq::filter);
    if s.len() > 0 {
        assert forall|p: PointOffsetType| s.drop_last().contains(p) implies s.contains(p) by {
            let k = choose|k: int| 0 <= k < s.drop_last().len() && s.drop_last()[k] == p;
            assert(s[k] == p);
        }
        lemma_without_absent(s.drop_last(), point);
        assert(s[s.len() - 1] == s.last());
        assert(s.contains(s.last()));
        assert(s.drop_last().push(s.last()) =~= s);
    }
}

/// What is left after taking out `point` holds every other identifier of the
/// run and nothing else.
pub proof fn lemma_without_contains(s: Seq<PointOffsetType>, point: PointOffsetType)
    ensures
        forall|p: PointOffsetType|
            without_point(s, point).contains(p) <==> s.contains(p) && p != point,
        without_point(s, point).len() <= s.len(),
    decreases s.len(),
{
    reveal(Seq::filter);
    broadcast use vstd::seq_lib::lemma_seq_contains_after_push;

    if s.len() > 0 {
        lemma_without_contains(s.drop_last(), point);
        assert(s.drop_last().push(s.last()) =~= s);
    }
}

/// Taking a point out of a strictly ascending run leaves a strictly ascending
/// run.
pub proof fn lemma_without_ascending(s: Seq<PointOffsetType>, point: PointOffsetType)
    requires
        strictly_ascending(s),
    ensures
        strictly_ascending(without_point(s, point)),
    decreases s.len(),
{
    reveal(Seq::filter);
    if s.len() > 0 {
        let shorter = s.drop_last();
        assert forall|i: int, j: int| 0 <= i < j < shorter.len() implies shorter[i] < shorter[j] by {
            assert(s[i] < s[j]);
        }
        lemma_without_ascending(shorter, point);
        lemma_without_contains(shorter, point);
        let rest = without_point(shorter, point);
        if s.last() != point {
            let out = rest.push(s.last());
            assert forall|i: int, j: int| 0 <= i < j < out.len() implies out[i] < out[j] by {
                if j == out.len() - 1 {
                    assert(rest.contains(rest[i]));
                    assert(shorter.contains(rest[i]));
                    let k = choose|k: int| 0 <= k < shorter.len() && shorter[k] == rest[i];
                    assert(s[k] < s[s.len() - 1]);
                } else {
                    assert(rest[i] < rest[j]);
                }
            }
        }
    }
}

/// What a value-to-points relation looks like once `point` has no value any
/// more: every run loses the point, and a value left without points loses its
/// entry.
pub open spec fn purge(
    view: Map<IntPayloadType, Seq<PointOffsetType>>,
    point: PointOffsetType,
) -> Map<IntPayloadType, Seq<PointOffsetType>> {
    Map::new(
        |value: IntPayloadType|
            view.contains_key(value) && without_point(view[value], point).len() > 0,
        |value: IntPayloadType| without_point(view[value], point),
    )
}

/// The flat points container with its range bookkeeping and tombstones.
///
/// Seen from outside it is a relation from values to ascending runs of live
/// points, its view. A value has an entry exactly while it has a live point.
pub struct FlatPointsContainer {
    value_to_points: HashMap<IntPayloadType, ContainerSegment>,
    /// Holds a run of point identifiers per value; `value_to_points` holds the
    /// range of each. Every run is strictly ascending, so it can be searched by
    /// halving.
    value_to_points_container: Vec<PointOffsetType>,
    deleted_value_to_points_container: BitVector,
}

impl View for FlatPointsContainer {
    type V = Map<IntPayloadType, Seq<PointOffsetType>>;

    /// The live points of every value that has any, in ascending order.
    open spec fn view(&self) -> Map<IntPayloadType, Seq<PointOffsetType>> {
        Map::new(
            |value: IntPayloadType| self.segments().contains_key(value),
            |value: IntPayloadType| self.live_points(value),
        )
    }
}

impl FlatPointsContainer {
    /// The range and live count recorded for each value.
    pub closed spec fn segments(&self) -> Map<IntPayloadType, ContainerSegment> {
        self.value_to_points@
    }

    /// The shared array of point identifiers, removed ones included.
    pub closed spec fn points(&self) -> Seq<PointOffsetType> {
        self.value_to_points_container@
    }

    /// The tombstone bits recorded so far, by position in the shared array.
    pub closed spec fn tombstones(&self) -> Seq<bool> {
        self.deleted_value_to_points_container@
    }

    /// The points of `value` that have not been removed, in ascending order;
    /// empty for a value without an entry.
    pub open spec fn live_points(&self, value: IntPayloadType) -> Seq<PointOffsetType> {
        if self.segments().contains_key(value) {
            live_ids(
                self.points(),
                self.tombstones(),
                self.segments()[value].start as int,
                self.segments()[value].end as int,
            )
        } else {
            Seq::empty()
        }
    }

    /// Whether `point` is a live point of `value`.
    pub open spec fn has(&self, value: IntPayloadType, point: PointOffsetType) -> bool {
        self@.contains_key(value) && self@[value].contains(point)
    }

    /// The position in the shared array at which `point` stands in the run of
    /// `value`. It is meant for a point that the run holds; a strictly ascending
    /// run holds it once.
    pub open spec fn slot_of(&self, value: IntPayloadType, point: PointOffsetType) -> int {
        choose|pos: int|
            self.segments()[value].start <= pos < self.segments()[value].end
                && self.points()[pos] == point
    }

    /// What holds of one recorded segment: it lies inside the container, its run
    /// is strictly ascending, and its count is the number of live slots, which is
    /// at least one.
    pub open spec fn segment_wf(&self, segment: ContainerSegment) -> bool {
        &&& segment.start <= segment.end <= self.points().len()
        &&& strictly_ascending(self.points().subrange(segment.start as int, segment.end as int))
        &&& segment.count >= 1
        &&& segment.count == live_ids(
            self.points(),
            self.tombstones(),
            segment.start as int,
            segment.end as int,
        ).len()
    }

    /// The invariant of the container.
    pub open spec fn wf(&self) -> bool {
        &&& self.points().len() <= container_limit()
        &&& self.tombstones().len() <= self.points().len()
        &&& self.segments().dom().finite()
        &&& forall|value: IntPayloadType| #[trigger]
            self.segments().contains_key(value) ==> self.segment_wf(self.segments()[value])
        &&& forall|v: IntPayloadType, w: IntPayloadType|
            #![trigger self.segments()[v], self.segments()[w]]
            self.segments().contains_key(v) && self.segments().contains_key(w) && v != w ==> {
                ||| self.segments()[v].end <= self.segments()[w].start
                ||| self.segments()[w].end <= self.segments()[v].start
            }
    }

    /// In a well-formed container the live points of every value are strictly
    /// ascending, and a value has an entry exactly when it has a live point.
    pub proof fn lemma_live_points_ascending(&self, value: IntPayloadType)
        requires
            self.wf(),
        ensures
            strictly_ascending(self.live_points(value)),
            self@.contains_key(value) <==> self.live_points(value).len() > 0,
            self@.contains_key(value) ==> self@[value] == self.live_points(value),
    {
        if self.segments().contains_key(value) {
            let segment = self.segments()[value];
            assert(self.segment_wf(segment));
            lemma_live_ascending(
                self.points(),
                self.tombstones(),
                segment.start as int,
                segment.end as int,
            );
        }
    }

    /// An empty container.
    pub fn new() -> (container: Self)
        ensures
            container.wf(),
            container@ == Map::<IntPayloadType, Seq<PointOffsetType>>::empty(),
            container.points() == Seq::<PointOffsetType>::empty(),
            container.tombstones() == Seq::<bool>::empty(),
    {
        let container = FlatPointsContainer {
            value_to_points: HashMap::new(),
            value_to_points_container: Vec::new(),
            deleted_value_to_points_container: BitVector::new(),
        };
        assert(container@ =~= Map::<IntPayloadType, Seq<PointOffsetType>>::empty());
        container
    }

    /// Forgets every value, point and tombstone.
    pub fn clear(&mut self)
        ensures
            final(self).wf(),
            final(self)@ == Map::<IntPayloadType, Seq<PointOffsetType>>::empty(),
            final(self).points() == Seq::<PointOffsetType>::empty(),
            final(self).tombstones() == Seq::<bool>::empty(),
    {
        self.value_to_points.clear();
        self.value_to_points_container.clear();
        self.deleted_value_to_points_container.clear();
        assert(self@ =~= Map::<IntPayloadType, Seq<PointOffsetType>>::empty());
    }

    /// Number of identifiers in the shared array, removed ones included.
    pub fn container_len(&self) -> (len: usize)
        ensures
            len == self.points().len(),
    {
        self.value_to_points_container.len()
    }

    /// The tombstone bits recorded so far, by position in the shared array. A
    /// position beyond them has not been flagged.
    pub fn tombstone_flags(&self) -> (flags: Vec<bool>)
        ensures
            flags@ == self.tombstones(),
    {
        let mut flags: Vec<bool> = Vec::new();
        let mut pos: usize = 0;
        while pos < self.deleted_value_to_points_container.len()
            invariant
                pos <= self.tombstones().len(),
                flags@ == self.tombstones().take(pos as int),
            decreases self.tombstones().len() - pos,
        {
            match self.deleted_value_to_points_container.get(pos) {
                Some(bit) => {
                    flags.push(bit);
                },
                None => {},
            }
            assert(flags@ =~= self.tombstones().take(pos + 1));
            pos += 1;
        }
        assert(self.tombstones().take(self.tombstones().len() as int) =~= self.tombstones());
        flags
    }

    /// Gives `value` a run of its own: appends `points` to the end of the shared
    /// array and records the range, with every point live. A run that `value`
    /// had before is abandoned where it stands. Without points the value gets no
    /// entry.
    pub fn allocate(&mut self, value: IntPayloadType, points: &Vec<PointOffsetType>) -> (segment:
        ContainerSegment)
        requires
            old(self).wf(),
            strictly_ascending(points@),
            old(self).points().len() + points.len() <= container_limit(),
        ensures
            final(self).wf(),
            final(self).points() == old(self).points() + points@,
            final(self).tombstones() == old(self).tombstones(),
            segment.start == old(self).points().len(),
            segment.end == old(self).points().len() + points.len(),
            segment.count == points.len(),
            final(self)@ == if points.len() > 0 {
                old(self)@.insert(value, points@)
            } else {
                old(self)@.remove(value)
            },
            final(self).segments() == if points.len() > 0 {
                old(self).segments().insert(value, segment)
            } else {
                old(self).segments().remove(value)
            },
    {
        let start: usize = self.value_to_points_container.len();
        let mut i: usize = 0;
        while i < points.len()
            invariant
                i <= points.len(),
                self.value_to_points_container@ == old(self).value_to_points_container@
                    + points@.take(i as int),
                self.value_to_points == old(self).value_to_points,
                self.deleted_value_to_points_container == old(
                    self,
                ).deleted_value_to_points_container,
            decreases points.len() - i,
        {
            self.value_to_points_container.push(points[i]);
            assert(points@.take(i as int).push(points@[i as int]) =~= points@.take(i + 1));
            assert(self.value_to_points_container@ =~= old(self).value_to_points_container@
                + points@.take(i + 1));
            i += 1;
        }
        assert(points@.take(points.len() as int) =~= points@);
        let end: usize = self.value_to_points_container.len();
        let segment = ContainerSegment {
            start: start as u32,
            end: end as u32,
            count: points.len() as u32,
        };
        if points.len() > 0 {
            self.value_to_points.insert(value, segment);
        } else {
            self.value_to_points.remove(&value);
        }
        proof {
            let entries = self.segments();
            assert forall|v: IntPayloadType| #[trigger] entries.contains_key(v) implies {
                &&& self.segment_wf(entries[v])
                &&& self.live_points(v) == if v == value {
                    points@
                } else {
                    old(self).live_points(v)
                }
            } by {
                if v == value {
                    assert(self.points().subrange(start as int, end as int) =~= points@);
                    lemma_live_all(self.points(), self.tombstones(), start as int, end as int);
                } else {
                    let kept = old(self).segments()[v];
                    assert(old(self).segment_wf(kept));
                    assert(self.points().subrange(kept.start as int, kept.end as int)
                        =~= old(self).points().subrange(kept.start as int, kept.end as int));
                    lemma_live_frame(
                        old(self).points(),
                        old(self).tombstones(),
                        self.points(),
                        self.tombstones(),
                        kept.start as int,
                        kept.end as int,
                    );
                }
            }
            assert forall|v: IntPayloadType, w: IntPayloadType|
                #![trigger entries[v], entries[w]]
                entries.contains_key(v) && entries.contains_key(w) && v != w implies {
                ||| entries[v].end <= entries[w].start
                ||| entries[w].end <= entries[v].start
            } by {
                if v != value {
                    assert(old(self).segment_wf(old(self).segments()[v]));
                }
                if w != value {
                    assert(old(self).segment_wf(old(self).segments()[w]));
                }
            }
            if points.len() > 0 {
                assert(self@ =~= old(self)@.insert(value, points@));
            } else {
                assert(self@ =~= old(self)@.remove(value));
            }
        }
        segment
    }

    /// The whole run of `value`, removed slots included, with the position in
    /// the shared array at which it starts; nothing for a value without live
    /// points. The position turns a place in the run into the place of its
    /// tombstone bit.
    pub fn get_point_ids_slice(&self, value: IntPayloadType) -> (found: Option<
        (&[PointOffsetType], usize),
    >)
        requires
            self.wf(),
        ensures
            match found {
                Some((run, offset)) => {
                    &&& self@.contains_key(value)
                    &&& offset == self.segments()[value].start
                    &&& run@ == self.points().subrange(
                        self.segments()[value].start as int,
                        self.segments()[value].end as int,
                    )
                },
                None => !self@.contains_key(value),
            },
    {
        match self.value_to_points.get(&value) {
            Some(entry) => {
                assert(self.segment_wf(*entry));
                let run = vstd::slice::slice_subrange(
                    self.value_to_points_container.as_slice(),
                    entry.start as usize,
                    entry.end as usize,
                );
                Some((run, entry.start as usize))
            },
            None => None,
        }
    }

    /// Lowers the live count recorded for `value` by one, not below zero, and
    /// says whether the value is thereby left without live points. The caller
    /// then has to drop the entry. Nothing happens for a value without an entry.
    pub fn shrink_value_range(
        value_to_points: &mut HashMap<IntPayloadType, ContainerSegment>,
        value: IntPayloadType,
    ) -> (emptied: bool)
        ensures
            final(value_to_points)@ == if old(value_to_points)@.contains_key(value) {
                old(value_to_points)@.insert(
                    value,
                    (ContainerSegment {
                        start: old(value_to_points)@[value].start,
                        end: old(value_to_points)@[value].end,
                        count: if old(value_to_points)@[value].count > 0 {
                            (old(value_to_points)@[value].count - 1) as u32
                        } else {
                            0
                        },
                    }),
                )
            } else {
                old(value_to_points)@
            },
            emptied <==> old(value_to_points)@.contains_key(value) && old(
                value_to_points,
            )@[value].count <= 1,
    {
        let entry = match value_to_points.get(&value) {
            Some(entry) => *entry,
            None => {
                return false;
            },
        };
        let count: u32 = if entry.count > 0 {
            entry.count - 1
        } else {
            0
        };
        value_to_points.insert(value, ContainerSegment { start: entry.start, end: entry.end, count });
        count == 0
    }

    /// Takes `idx` out of the live points of `value`. The run is searched by
    /// halving; on a hit the slot is flagged in the tombstone bits, which grow
    /// as far as that slot, and the live count shrinks by one; a value left
    /// without live points loses its entry. The shared array itself is never
    /// touched, so no run is ever reordered. A value without an entry, a point
    /// that is not in the run, and a slot that is flagged already leave
    /// everything as it was.
    pub fn remove_idx_from_value_list(&mut self, value: IntPayloadType, idx: PointOffsetType)
        requires
            old(self).wf(),
        ensures
            final(self).wf(),
            final(self)@ == removal(old(self)@, value, idx),
            final(self).points() == old(self).points(),
            forall|v: IntPayloadType| #[trigger]
                final(self).segments().contains_key(v) ==> old(self).segments().contains_key(v)
                    && final(self).segments()[v].start == old(self).segments()[v].start
                    && final(self).segments()[v].end == old(self).segments()[v].end,
            // the tombstone bits grow as far as the slot of the point, and no further
            old(self).has(value, idx) ==> {
                &&& old(self).segments()[value].start <= old(self).slot_of(value, idx) < old(
                    self,
                ).segments()[value].end
                &&& old(self).points()[old(self).slot_of(value, idx)] == idx
                &&& !tombstoned(old(self).tombstones(), old(self).slot_of(value, idx))
            },
            final(self).tombstones() == if old(self).has(value, idx) {
                padded_flags(
                    old(self).tombstones(),
                    (old(self).slot_of(value, idx) + 1) as nat,
                ).update(old(self).slot_of(value, idx), true)
            } else {
                old(self).tombstones()
            },
    {
        let entry = match self.value_to_points.get(&value) {
            Some(entry) => *entry,
            None => {
                return ;
            },
        };
        assert(self.segment_wf(entry));
        proof {
            lemma_live_members(
                self.points(),
                self.tombstones(),
                entry.start as int,
                entry.end as int,
            );
        }
        let ghost run = self.points().subrange(entry.start as int, entry.end as int);
        // Finds the slot of `idx` in the run of the value
        let pos = match search_ascending(
            &self.value_to_points_container,
            entry.start as usize,
            entry.end as usize,
            idx,
        ) {
            Some(pos) => pos,
            None => {
                return ;
            },
        };
        assert forall|i: int|
            entry.start <= i < entry.end && #[trigger] self.points()[i] == idx implies i == pos by {
            assert(run[i - entry.start] == self.points()[i]);
            assert(run[pos - entry.start] == idx);
            if i < pos {
                assert(run[i - entry.start] < run[pos - entry.start]);
            }
            if pos < i {
                assert(run[pos - entry.start] < run[i - entry.start]);
            }
        }
        proof {
            assert(self.points()[pos as int] == idx);
            assert(self.slot_of(value, idx) == pos);
        }
        if self.deleted_value_to_points_container.len() < pos + 1 {
            self.deleted_value_to_points_container.resize(pos + 1, false);
        }
        proof {
            assert forall|i: int|
                tombstoned(self.tombstones(), i) == tombstoned(old(self).tombstones(), i) by {}
            assert(self.tombstones() =~= padded_flags(old(self).tombstones(), (pos + 1) as nat));
        }
        let ghost grown = self.tombstones();
        let was_deleted = self.deleted_value_to_points_container.replace(pos, true);
        if was_deleted {
            // flagged before: the point is not live, and nothing has changed
            proof {
                assert(self.tombstones() =~= grown);
                assert(grown =~= old(self).tombstones());
                self.lemma_same_flags(*old(self));
                assert(!old(self).live_points(value).contains(idx));
            }
            return ;
        }
        let emptied = Self::shrink_value_range(&mut self.value_to_points, value);
        if emptied {
            self.value_to_points.remove(&value);
        }
        proof {
            let before = *old(self);
            let entries = self.segments();
            lemma_live_tombstone(
                self.points(),
                before.tombstones(),
                self.tombstones(),
                entry.start as int,
                entry.end as int,
                pos as int,
            );
            assert(before.live_points(value).contains(idx));
            assert forall|v: IntPayloadType| #[trigger] entries.contains_key(v) implies {
                &&& self.segment_wf(entries[v])
                &&& self.live_points(v) == if v == value {
                    without_point(before.live_points(value), idx)
                } else {
                    before.live_points(v)
                }
            } by {
                if v != value {
                    let kept = before.segments()[v];
                    assert(before.segment_wf(kept));
                    assert(before.segments().contains_key(value));
                    assert(kept.end <= entry.start || entry.end <= kept.start);
                    lemma_live_frame(
                        before.points(),
                        before.tombstones(),
                        self.points(),
                        self.tombstones(),
                        kept.start as int,
                        kept.end as int,
                    );
                }
            }
            assert forall|v: IntPayloadType, w: IntPayloadType|
                #![trigger entries[v], entries[w]]
                entries.contains_key(v) && entries.contains_key(w) && v != w implies {
                ||| entries[v].end <= entries[w].start
                ||| entries[w].end <= entries[v].start
            } by {
                assert(before.segments().contains_key(v));
                assert(before.segments().contains_key(w));
                assert(before.segments()[v].end <= before.segments()[w].start
                    || before.segments()[w].end <= before.segments()[v].start);
            }
            assert(self@ =~= removal(before@, value, idx));
        }
    }

    /// The live points of `value` in ascending order: the run of the value
    /// without the slots that are flagged, where a slot beyond the recorded
    /// tombstone bits counts as live. Empty for a value without an entry.
    pub fn get_iterator(&self, value: IntPayloadType) -> (ids: Vec<PointOffsetType>)
        requires
            self.wf(),
        ensures
            ids@ == self.live_points(value),
            strictly_ascending(ids@),
    {
        let mut ids: Vec<PointOffsetType> = Vec::new();
        proof {
            self.lemma_live_points_ascending(value);
        }
        let entry = match self.value_to_points.get(&value) {
            Some(entry) => *entry,
            None => {
                return ids;
            },
        };
        assert(self.segment_wf(entry));
        let mut pos: usize = entry.start as usize;
        while pos < entry.end as usize
            invariant
                entry.start <= pos <= entry.end <= self.points().len(),
                ids@ == live_ids(
                    self.points(),
                    self.tombstones(),
                    entry.start as int,
                    pos as int,
                ),
            decreases entry.end - pos,
        {
            let is_deleted = match self.deleted_value_to_points_container.get(pos) {
                Some(bit) => bit,
                None => false,
            };
            if !is_deleted {
                ids.push(self.value_to_points_container[pos]);
            }
            pos += 1;
        }
        ids
    }

    /// How many live points `value` has; nothing for a value without an entry.
    pub fn get_count_for_value(&self, value: IntPayloadType) -> (count: Option<usize>)
        requires
            self.wf(),
        ensures
            count == if self@.contains_key(value) {
                Some(self@[value].len() as usize)
            } else {
                None
            },
    {
        match self.value_to_points.get(&value) {
            Some(entry) => {
                assert(self.segment_wf(*entry));
                Some(entry.count as usize)
            },
            None => None,
        }
    }

    /// How many values have a live point.
    pub fn unique_values_count(&self) -> (count: usize)
        requires
            self.wf(),
        ensures
            count == self@.dom().len(),
    {
        assert(self@.dom() =~= self.segments().dom());
        self.value_to_points.len()
    }

    /// Every value that has a live point, once each, in no particular order.
    pub fn values(&self) -> (values: Vec<IntPayloadType>)
        requires
            self.wf(),
        ensures
            values@.no_duplicates(),
            values@.to_set() == self@.dom(),
    {
        let mut values: Vec<IntPayloadType> = Vec::new();
        let keys = self.value_to_points.keys();
        let ghost all = keys.remaining();
        assert(all.unref().to_set() == self.segments().dom());
        for key in it: keys
            invariant
                it.seq() == all,
                values.len() == it.index(),
                forall|i: int| 0 <= i < values.len() ==> values@[i] == *it.seq()[i],
        {
            values.push(*key);
        }
        assert(values@ =~= all.unref());
        assert(self@.dom() =~= self.segments().dom());
        values
    }

    /// Two containers with the same array and segments, whose tombstone bits
    /// flag the same slots, have the same live points.
    proof fn lemma_same_flags(&self, other: Self)
        requires
            other.wf(),
            self.points() == other.points(),
            self.segments() == other.segments(),
            self.tombstones().len() <= self.points().len(),
            forall|i: int| tombstoned(self.tombstones(), i) == tombstoned(other.tombstones(), i),
        ensures
            self.wf(),
            self@ == other@,
            forall|v: IntPayloadType| self.live_points(v) == other.live_points(v),
    {
        assert forall|v: IntPayloadType| self.live_points(v) == other.live_points(v) by {
            if self.segments().contains_key(v) {
                let kept = other.segments()[v];
                assert(other.segment_wf(kept));
                lemma_live_frame(
                    other.points(),
                    other.tombstones(),
                    self.points(),
                    self.tombstones(),
                    kept.start as int,
                    kept.end as int,
                );
            }
        }
        assert forall|v: IntPayloadType| #[trigger]
            self.segments().contains_key(v) implies self.segment_wf(self.segments()[v]) by {
            assert(other.segment_wf(other.segments()[v]));
            assert(self.live_points(v) == other.live_points(v));
        }
        assert forall|v: IntPayloadType, w: IntPayloadType|
            #![trigger self.segments()[v], self.segments()[w]]
            self.segments().contains_key(v) && self.segments().contains_key(w) && v != w implies {
            ||| self.segments()[v].end <= self.segments()[w].start
            ||| self.segments()[w].end <= self.segments()[v].start
        } by {
            assert(other.segments()[v].end <= other.segments()[w].start || other.segments()[w].end
                <= other.segments()[v].start);
        }
        assert(self@ =~= other@);
    }
}

} // verus!
