//! The reverse index: for each point, the values it has. It is built once,
//! when an index is loaded; afterwards the only change is that the entry of
//! a removed point is cleared, while the backing array stays as it is.

use crate::{IntPayloadType, PointOffsetType};
use vstd::prelude::*;

verus! {

/// The number of values that all points have together.
pub open spec fn total_values(lists: Seq<Seq<IntPayloadType>>) -> nat
    decreases lists.len(),
{
    if lists.len() == 0 {
        0
    } else {
        total_values(lists.drop_last()) + lists.last().len()
    }
}

/// The number of points that have at least one value.
pub open spec fn points_with_values(lists: Seq<Seq<IntPayloadType>>) -> nat
    decreases lists.len(),
{
    if lists.len() == 0 {
        0
    } else {
        points_with_values(lists.drop_last()) + if lists.last().len() > 0 {
            1nat
        } else {
            0nat
        }
    }
}

/// Replacing the list of one point changes the two totals by what that point
/// contributed before and contributes now.
pub proof fn lemma_totals_update(
    lists: Seq<Seq<IntPayloadType>>,
    idx: int,
    list: Seq<IntPayloadType>,
)
    requires
        0 <= idx < lists.len(),
    ensures
        total_values(lists.update(idx, list)) == total_values(lists) - lists[idx].len()
            + list.len(),
        points_with_values(lists.update(idx, list)) == points_with_values(lists) - (if lists[idx].len()
            > 0 {
            1int
        } else {
            0int
        }) + (if list.len() > 0 {
            1int
        } else {
            0int
        }),
        points_with_values(lists) <= lists.len(),
        lists[idx].len() <= total_values(lists),
        lists[idx].len() > 0 ==> points_with_values(lists) >= 1,
    decreases lists.len(),
{
    let updated = lists.update(idx, list);
    lemma_totals_bounds(lists);
    if idx == lists.len() - 1 {
        assert(updated.drop_last() =~= lists.drop_last());
    } else {
        assert(updated.drop_last() =~= lists.drop_last().update(idx, list));
        lemma_totals_update(lists.drop_last(), idx, list);
    }
}

/// No more points have values than there are points.
pub proof fn lemma_totals_bounds(lists: Seq<Seq<IntPayloadType>>)
    ensures
        points_with_values(lists) <= lists.len(),
        points_with_values(lists) <= total_values(lists),
    decreases lists.len(),
{
    if lists.len() > 0 {
        lemma_totals_bounds(lists.drop_last());
    }
}

/// Appending a point adds what that point contributes to the two totals.
pub proof fn lemma_totals_push(lists: Seq<Seq<IntPayloadType>>, list: Seq<IntPayloadType>)
    ensures
        total_values(lists.push(list)) == total_values(lists) + list.len(),
        points_with_values(lists.push(list)) == points_with_values(lists) + if list.len() > 0 {
            1nat
        } else {
            0nat
        },
{
    assert(lists.push(list).drop_last() =~= lists);
}

/// The values of every point, indexed by point identifier.
pub struct ImmutablePointToValues {
    /// Where the values of each point stand in the backing array.
    point_to_values: Vec<(usize, usize)>,
    point_to_values_container: Vec<IntPayloadType>,
}

impl View for ImmutablePointToValues {
    type V = Seq<Seq<IntPayloadType>>;

    /// The list of values of each point, by point identifier.
    closed spec fn view(&self) -> Seq<Seq<IntPayloadType>> {
        Seq::new(
            self.point_to_values@.len(),
            |p: int|
                self.point_to_values_container@.subrange(
                    self.point_to_values@[p].0 as int,
                    self.point_to_values@[p].1 as int,
                ),
        )
    }
}

impl ImmutablePointToValues {
    /// The invariant: every recorded range lies inside the backing array.
    pub closed spec fn wf(&self) -> bool {
        forall|p: int|
            0 <= p < self.point_to_values@.len() ==> (#[trigger] self.point_to_values@[p]).0
                <= self.point_to_values@[p].1 <= self.point_to_values_container@.len()
    }

    /// A reverse index without points.
    pub fn empty() -> (index: Self)
        ensures
            index.wf(),
            index@ == Seq::<Seq<IntPayloadType>>::empty(),
    {
        let index = ImmutablePointToValues {
            point_to_values: Vec::new(),
            point_to_values_container: Vec::new(),
        };
        assert(index@ =~= Seq::<Seq<IntPayloadType>>::empty());
        index
    }

    /// Builds the reverse index from one list of values per point, by laying
    /// the lists end to end in one backing array.
    pub fn new(src: Vec<Vec<IntPayloadType>>) -> (index: Self)
        ensures
            index.wf(),
            index@.len() == src.len(),
            forall|p: int| 0 <= p < src.len() ==> index@[p] == #[trigger] src@[p]@,
    {
        let mut point_to_values: Vec<(usize, usize)> = Vec::new();
        let mut container: Vec<IntPayloadType> = Vec::new();
        let mut p: usize = 0;
        while p < src.len()
            invariant
                p <= src.len(),
                point_to_values.len() == p,
                forall|q: int|
                    0 <= q < p ==> (#[trigger] point_to_values@[q]).0 <= point_to_values@[q].1
                        <= container.len(),
                forall|q: int|
                    0 <= q < p ==> container@.subrange(
                        (#[trigger] point_to_values@[q]).0 as int,
                        point_to_values@[q].1 as int,
                    ) == src@[q]@,
            decreases src.len() - p,
        {
            let values = &src[p];
            let start: usize = container.len();
            let ghost before = container@;
            let mut i: usize = 0;
            while i < values.len()
                invariant
                    i <= values.len(),
                    container@ == before + values@.take(i as int),
                decreases values.len() - i,
            {
                container.push(values[i]);
                assert(container@ =~= before + values@.take(i + 1));
                i += 1;
            }
            assert(values@.take(values.len() as int) =~= values@);
            let end: usize = container.len();
            point_to_values.push((start, end));
            proof {
                assert(container@.subrange(start as int, end as int) =~= values@);
                assert forall|q: int| 0 <= q < p implies container@.subrange(
                    (#[trigger] point_to_values@[q]).0 as int,
                    point_to_values@[q].1 as int,
                ) == src@[q]@ by {
                    assert(container@.subrange(
                        point_to_values@[q].0 as int,
                        point_to_values@[q].1 as int,
                    ) =~= before.subrange(
                        point_to_values@[q].0 as int,
                        point_to_values@[q].1 as int,
                    ));
                }
            }
            p += 1;
        }
        ImmutablePointToValues { point_to_values, point_to_values_container: container }
    }

    /// The number of points the index was built for.
    pub fn len(&self) -> (n: usize)
        ensures
            n == self@.len(),
    {
        self.point_to_values.len()
    }

    /// The values of point `idx`; nothing for a point the index was not built
    /// for. A removed point has an empty list.
    pub fn get_values(&self, idx: PointOffsetType) -> (values: Option<&[IntPayloadType]>)
        requires
            self.wf(),
        ensures
            match values {
                Some(list) => idx < self@.len() && list@ == self@[idx as int],
                None => idx >= self@.len(),
            },
    {
        if (idx as usize) < self.point_to_values.len() {
            let range = self.point_to_values[idx as usize];
            Some(
                vstd::slice::slice_subrange(
                    self.point_to_values_container.as_slice(),
                    range.0,
                    range.1,
                ),
            )
        } else {
            None
        }
    }

    /// How many values point `idx` has; nothing for a point the index was not
    /// built for.
    pub fn get_values_count(&self, idx: PointOffsetType) -> (count: Option<usize>)
        requires
            self.wf(),
        ensures
            count == if idx < self@.len() {
                Some(self@[idx as int].len() as usize)
            } else {
                None
            },
    {
        if (idx as usize) < self.point_to_values.len() {
            let range = self.point_to_values[idx as usize];
            Some(range.1 - range.0)
        } else {
            None
        }
    }

    /// Whether `check_fn` accepts one of the values of point `idx`. The values
    /// are tried in order, and the first one accepted ends the search.
    pub fn check_values_any(
        &self,
        idx: PointOffsetType,
        check_fn: impl Fn(&IntPayloadType) -> bool,
    ) -> (any: bool)
        requires
            self.wf(),
            idx < self@.len() ==> forall|i: int|
                0 <= i < self@[idx as int].len() ==> call_requires(
                    check_fn,
                    (&#[trigger] self@[idx as int][i],),
                ),
        ensures
            any ==> idx < self@.len() && exists|i: int|
                0 <= i < self@[idx as int].len() && call_ensures(
                    check_fn,
                    (&#[trigger] self@[idx as int][i],),
                    true,
                ),
            !any && idx < self@.len() ==> forall|i: int|
                0 <= i < self@[idx as int].len() ==> call_ensures(
                    check_fn,
                    (&#[trigger] self@[idx as int][i],),
                    false,
                ),
    {
        let values = match self.get_values(idx) {
            Some(values) => values,
            None => {
                return false;
            },
        };
        let mut i: usize = 0;
        while i < values.len()
            invariant
                i <= values.len(),
                idx < self@.len(),
                values@ == self@[idx as int],
                forall|j: int|
                    0 <= j < values.len() ==> call_requires(check_fn, (&#[trigger] values@[j],)),
                forall|j: int|
                    0 <= j < i ==> call_ensures(check_fn, (&#[trigger] values@[j],), false),
            decreases values.len() - i,
        {
            if check_fn(&values[i]) {
                return true;
            }
            i += 1;
        }
        false
    }

    /// Clears the entry of point `idx`, so that it has no values any more. The
    /// backing array keeps its contents. A point the index was not built for
    /// changes nothing.
    pub fn remove_point(&mut self, idx: PointOffsetType)
        requires
            old(self).wf(),
        ensures
            final(self).wf(),
            final(self)@ == if idx < old(self)@.len() {
                old(self)@.update(idx as int, Seq::<IntPayloadType>::empty())
            } else {
                old(self)@
            },
    {
        if (idx as usize) < self.point_to_values.len() {
            self.point_to_values.set(idx as usize, (0, 0));
            assert(self.point_to_values_container@.subrange(0, 0) =~= Seq::<IntPayloadType>::empty());
            assert(self@ =~= old(self)@.update(idx as int, Seq::<IntPayloadType>::empty()));
        }
    }
}

} // verus!
