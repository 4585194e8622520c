//! Ordered runs of point identifiers: what "sorted" means, how a run is
//! sorted, and how a point is found in one.

use crate::PointOffsetType;
use vstd::prelude::*;

verus! {

/// Every element is less than or equal to each one after it.
pub open spec fn ascending(s: Seq<PointOffsetType>) -> bool {
    forall|i: int, j: int| 0 <= i <= j < s.len() ==> s[i] <= s[j]
}

/// Every element is less than each one after it: ascending, and nothing twice.
pub open spec fn strictly_ascending(s: Seq<PointOffsetType>) -> bool {
    forall|i: int, j: int| 0 <= i < j < s.len() ==> s[i] < s[j]
}

/// `<[T]>::sort_unstable` of std, on a vector of point identifiers: afterwards the
/// vector holds the same identifiers, each as often as before, in ascending order.
#[verifier::external_body]
pub(crate) fn sort_unstable(points: &mut Vec<PointOffsetType>)
    ensures
        ascending(final(points)@),
        final(points)@.to_multiset() == old(points)@.to_multiset(),
{
    points.sort_unstable()
}

/// An ascending run in which nothing occurs twice is strictly ascending.
pub proof fn lemma_ascending_distinct_is_strict(s: Seq<PointOffsetType>)
    requires
        ascending(s),
        s.no_duplicates(),
    ensures
        strictly_ascending(s),
{
    assert forall|i: int, j: int| 0 <= i < j < s.len() implies s[i] < s[j] by {
        assert(s[i] <= s[j]);
        assert(s[i] != s[j]);
    }
}

/// Two strictly ascending runs that hold the same identifiers are the same run:
/// a set of points has one ascending enumeration.
pub proof fn lemma_strictly_ascending_unique(a: Seq<PointOffsetType>, b: Seq<PointOffsetType>)
    requires
        strictly_ascending(a),
        strictly_ascending(b),
        forall|p: PointOffsetType| a.contains(p) <==> b.contains(p),
    ensures
        a == b,
    decreases a.len(),
{
    if a.len() == 0 {
        if b.len() > 0 {
            assert(b.contains(b[0]));
            assert(a.contains(b[0]));
        }
        assert(a =~= b);
    } else {
        let la = a.last();
        assert(a.contains(la));
        assert(b.contains(la));
        let k = choose|k: int| 0 <= k < b.len() && b[k] == la;
        let lb = b.last();
        assert(b.contains(lb));
        assert(a.contains(lb));
        let m = choose|m: int| 0 <= m < a.len() && a[m] == lb;
        // the largest element of each run is the largest of the other
        assert(lb <= la) by {
            if m < a.len() - 1 {
                assert(a[m] < a[a.len() - 1]);
            }
        }
        assert(la <= lb) by {
            if k < b.len() - 1 {
                assert(b[k] < b[b.len() - 1]);
            }
        }
        assert(k == b.len() - 1) by {
            if k < b.len() - 1 {
                assert(b[k] < b[b.len() - 1]);
            }
        }
        let a0 = a.drop_last();
        let b0 = b.drop_last();
        assert forall|p: PointOffsetType| a0.contains(p) <==> b0.contains(p) by {
            if a0.contains(p) {
                let i = choose|i: int| 0 <= i < a0.len() && a0[i] == p;
                assert(a[i] == p);
                assert(a[i] < a[a.len() - 1]);
                assert(a.contains(p));
                assert(b.contains(p));
                let j = choose|j: int| 0 <= j < b.len() && b[j] == p;
                assert(j < b.len() - 1);
                assert(b0[j] == p);
            }
            if b0.contains(p) {
                let j = choose|j: int| 0 <= j < b0.len() && b0[j] == p;
                assert(b[j] == p);
                assert(b[j] < b[b.len() - 1]);
                assert(b.contains(p));
                assert(a.contains(p));
                let i = choose|i: int| 0 <= i < a.len() && a[i] == p;
                assert(i < a.len() - 1);
                assert(a0[i] == p);
            }
        }
        assert(strictly_ascending(a0)) by {
            assert forall|i: int, j: int| 0 <= i < j < a0.len() implies a0[i] < a0[j] by {
                assert(a[i] < a[j]);
            }
        }
        assert(strictly_ascending(b0)) by {
            assert forall|i: int, j: int| 0 <= i < j < b0.len() implies b0[i] < b0[j] by {
                assert(b[i] < b[j]);
            }
        }
        lemma_strictly_ascending_unique(a0, b0);
        assert(a =~= a0.push(la));
        assert(b =~= b0.push(lb));
    }
}

/// Sorting a run in which nothing occurs twice gives a strictly ascending run
/// of the same identifiers.
pub proof fn lemma_sorted_distinct(before: Seq<PointOffsetType>, after: Seq<PointOffsetType>)
    requires
        before.no_duplicates(),
        ascending(after),
        after.to_multiset() == before.to_multiset(),
    ensures
        strictly_ascending(after),
        after.len() == before.len(),
        forall|p: PointOffsetType| after.contains(p) <==> before.contains(p),
{
    broadcast use vstd::seq_lib::group_to_multiset_ensures;

    before.lemma_multiset_has_no_duplicates();
    assert(after.len() == before.len()) by {
        assert(after.len() == after.to_multiset().len());
        assert(before.len() == before.to_multiset().len());
    }
    assert forall|p: PointOffsetType| after.to_multiset().contains(p) implies after.to_multiset().count(p)
        == 1 by {
        assert(before.to_multiset().contains(p));
    }
    after.lemma_multiset_has_no_duplicates_conv();
    lemma_ascending_distinct_is_strict(after);
    assert forall|p: PointOffsetType| after.contains(p) <==> before.contains(p) by {
        assert(after.contains(p) <==> after.to_multiset().count(p) > 0);
        assert(before.contains(p) <==> before.to_multiset().count(p) > 0);
    }
}

/// Looks for `point` in `points[start..end]`, which must be strictly ascending,
/// by halving the range. Gives the position in `points` where it stands, or
/// nothing when it is not in that range.
pub fn search_ascending(
    points: &Vec<PointOffsetType>,
    start: usize,
    end: usize,
    point: PointOffsetType,
) -> (found: Option<usize>)
    requires
        start <= end <= points.len(),
        strictly_ascending(points@.subrange(start as int, end as int)),
    ensures
        match found {
            Some(pos) => start <= pos < end && points[pos as int] == point,
            None => forall|i: int| start <= i < end ==> points[i] != point,
        },
{
    let ghost run = points@.subrange(start as int, end as int);
    let mut low: usize = start;
    let mut high: usize = end;
    while low < high
        invariant
            start <= low <= high <= end <= points.len(),
            run == points@.subrange(start as int, end as int),
            strictly_ascending(run),
            forall|i: int| start <= i < low ==> points[i] < point,
            forall|i: int| high <= i < end ==> points[i] > point,
        decreases high - low,
    {
        let mid: usize = low + (high - low) / 2;
        let at_mid: PointOffsetType = points[mid];
        assert(run[mid - start] == at_mid);
        if at_mid == point {
            return Some(mid);
        } else if at_mid < point {
            assert forall|i: int| start <= i < mid + 1 implies points[i] < point by {
                assert(run[i - start] == points[i]);
                if i < mid {
                    assert(run[i - start] < run[mid - start]);
                }
            }
            low = mid + 1;
        } else {
            assert forall|i: int| mid <= i < end implies points[i] > point by {
                assert(run[i - start] == points[i]);
                if mid < i {
                    assert(run[mid - start] < run[i - start]);
                }
            }
            high = mid;
        }
    }
    None
}

} // verus!
