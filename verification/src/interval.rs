//! Half-open intervals on a read, the points they cover, and the reduction of
//! a list of overlaps to the maximal regions that none of them covers.
use vstd::prelude::*;

verus! {

/// A half-open interval `[start, end)` of positions on a read.
pub type Interval = (u32, u32);

/// Whether position `p` lies in `iv`. An interval whose end does not exceed its
/// start holds no position.
pub open spec fn holds(iv: Interval, p: int) -> bool {
    iv.0 <= p < iv.1
}

/// The number of positions in `iv`.
pub open spec fn width(iv: Interval) -> nat {
    if iv.0 <= iv.1 {
        (iv.1 - iv.0) as nat
    } else {
        0
    }
}

/// The number of positions in the intervals of `s`, each counted for every
/// interval that holds it.
pub open spec fn total_width(s: Seq<Interval>) -> nat
    decreases s.len(),
{
    if s.len() == 0 {
        0
    } else {
        total_width(s.drop_last()) + width(s.last())
    }
}

/// Whether some interval of `s` holds position `p`.
pub open spec fn covered(s: Seq<Interval>, p: int) -> bool {
    exists|i: int| 0 <= i < s.len() && holds(#[trigger] s[i], p)
}

/// The intervals of `s` are non-empty, end by `limit`, come in ascending
/// order, and any two of them are kept apart by at least one position.
pub open spec fn separated(s: Seq<Interval>, limit: int) -> bool {
    &&& forall|i: int| 0 <= i < s.len() ==> (#[trigger] s[i]).0 < s[i].1 <= limit
    &&& forall|i: int, j: int| 0 <= i < j < s.len() ==> (#[trigger] s[i]).1 < (#[trigger] s[j]).0
}

/// `merged` is the minimal covering set of `overlaps` inside `[0, length)`:
/// separated intervals that hold exactly the positions below `length` that
/// some overlap holds.
pub open spec fn is_merged_cover(merged: Seq<Interval>, overlaps: Seq<Interval>, length: int) -> bool {
    &&& separated(merged, length)
    &&& forall|p: int| 0 <= p < length ==> (#[trigger] covered(merged, p) <==> covered(overlaps, p))
}

/// `gaps` is the list of bad regions of a read of `length` positions with the
/// given `overlaps`: separated intervals that hold exactly the positions below
/// `length` that no overlap holds.
pub open spec fn is_bad_part(gaps: Seq<Interval>, overlaps: Seq<Interval>, length: int) -> bool {
    &&& separated(gaps, length)
    &&& forall|p: int| 0 <= p < length ==> (#[trigger] covered(gaps, p) <==> !covered(overlaps, p))
}

/// A copy of a list of intervals.
pub fn copy_intervals(intervals: &Vec<Interval>) -> (copy: Vec<Interval>)
    ensures
        copy@ == intervals@,
{
    let mut copy: Vec<Interval> = Vec::with_capacity(intervals.len());
    let mut i: usize = 0;
    while i < intervals.len()
        invariant
            0 <= i <= intervals.len(),
            copy@ == intervals@.take(i as int),
        decreases intervals.len() - i,
    {
        copy.push(intervals[i]);
        proof {
            assert(intervals@.take(i + 1) == intervals@.take(i as int).push(intervals@[i as int]));
        }
        i += 1;
    }
    proof {
        assert(intervals@.take(i as int) == intervals@);
    }
    copy
}

/// The order in which overlaps are swept: by start, ties broken by end.
pub open spec fn precedes(a: Interval, b: Interval) -> bool {
    a.0 < b.0 || (a.0 == b.0 && a.1 <= b.1)
}

/// Every interval of `s` precedes the ones after it.
pub open spec fn ascending(s: Seq<Interval>) -> bool {
    forall|i: int, j: int| 0 <= i < j < s.len() ==> precedes(#[trigger] s[i], #[trigger] s[j])
}

/// Every interval of `s` is non-empty and ends by `limit`.
pub open spec fn within(s: Seq<Interval>, limit: int) -> bool {
    forall|i: int| 0 <= i < s.len() ==> (#[trigger] s[i]).0 < s[i].1 <= limit
}

/// Sorts the overlaps with `slice::sort_unstable`, which orders tuples of
/// integers lexicographically: the result holds the same intervals, each as
/// often as before, in ascending order.
#[verifier::external_body]
fn sort_intervals(v: &mut Vec<Interval>)
    ensures
        final(v)@.to_multiset() == old(v)@.to_multiset(),
        ascending(final(v)@),
{
    v.sort_unstable();
}

/// Coverage after one more interval is appended.
proof fn lemma_covered_push(s: Seq<Interval>, iv: Interval, p: int)
    ensures
        covered(s.push(iv), p) <==> covered(s, p) || holds(iv, p),
{
    let t = s.push(iv);
    if covered(s, p) {
        let k = choose|k: int| 0 <= k < s.len() && holds(#[trigger] s[k], p);
        assert(holds(t[k], p));
    }
    if holds(iv, p) {
        assert(holds(t[s.len() as int], p));
    }
    if covered(t, p) {
        let k = choose|k: int| 0 <= k < t.len() && holds(#[trigger] t[k], p);
        if k < s.len() {
            assert(holds(s[k], p));
        }
    }
}

/// Two lists that hold the same intervals cover the same positions.
proof fn lemma_covered_same_items(a: Seq<Interval>, b: Seq<Interval>, p: int)
    requires
        a.to_multiset() == b.to_multiset(),
    ensures
        covered(a, p) <==> covered(b, p),
{
    a.to_multiset_ensures();
    b.to_multiset_ensures();
    if covered(a, p) {
        let k = choose|k: int| 0 <= k < a.len() && holds(#[trigger] a[k], p);
        assert(a.contains(a[k]));
        assert(a.to_multiset().count(a[k]) > 0);
        assert(b.to_multiset().count(a[k]) > 0);
        assert(b.contains(a[k]));
        let j = choose|j: int| 0 <= j < b.len() && b[j] == a[k];
        assert(holds(b[j], p));
    }
    if covered(b, p) {
        let k = choose|k: int| 0 <= k < b.len() && holds(#[trigger] b[k], p);
        assert(b.contains(b[k]));
        assert(b.to_multiset().count(b[k]) > 0);
        assert(a.to_multiset().count(b[k]) > 0);
        assert(a.contains(b[k]));
        let j = choose|j: int| 0 <= j < a.len() && a[j] == b[k];
        assert(holds(a[j], p));
    }
}

/// Reordering keeps every interval non-empty and inside the limit.
proof fn lemma_within_same_items(a: Seq<Interval>, b: Seq<Interval>, limit: int)
    requires
        a.to_multiset() == b.to_multiset(),
        within(a, limit),
    ensures
        within(b, limit),
{
    a.to_multiset_ensures();
    b.to_multiset_ensures();
    assert forall|i: int| 0 <= i < b.len() implies (#[trigger] b[i]).0 < b[i].1 <= limit by {
        assert(b.contains(b[i]));
        assert(b.to_multiset().count(b[i]) > 0);
        assert(a.to_multiset().count(b[i]) > 0);
        assert(a.contains(b[i]));
        let j = choose|j: int| 0 <= j < a.len() && a[j] == b[i];
        assert(a[j].0 < a[j].1 <= limit);
    }
}

/// Drops the overlaps that hold no position below `length` and cuts the others
/// off at `length`.
fn clip_overlaps(overlaps: &Vec<Interval>, length: u32) -> (kept: Vec<Interval>)
    ensures
        within(kept@, length as int),
        forall|p: int| 0 <= p < length ==> (#[trigger] covered(kept@, p) <==> covered(overlaps@, p)),
{
    let mut kept: Vec<Interval> = Vec::new();
    let mut i: usize = 0;
    while i < overlaps.len()
        invariant
            0 <= i <= overlaps.len(),
            within(kept@, length as int),
            forall|p: int|
                0 <= p < length ==> (#[trigger] covered(kept@, p) <==> covered(
                    overlaps@.take(i as int),
                    p,
                )),
        decreases overlaps.len() - i,
    {
        let (start, end) = overlaps[i];
        let ghost before = kept@;
        if start < end && start < length {
            let cut = if end < length { end } else { length };
            kept.push((start, cut));
        }
        proof {
            assert(overlaps@.take(i + 1) == overlaps@.take(i as int).push(overlaps@[i as int]));
            assert forall|p: int| 0 <= p < length implies (#[trigger] covered(kept@, p) <==> covered(
                overlaps@.take(i + 1),
                p,
            )) by {
                lemma_covered_push(overlaps@.take(i as int), overlaps@[i as int], p);
                assert(covered(before, p) <==> covered(overlaps@.take(i as int), p));
                if start < end && start < length {
                    lemma_covered_push(before, kept@[before.len() as int], p);
                    assert(kept@ == before.push(kept@[before.len() as int]));
                }
            }
        }
        i += 1;
    }
    proof {
        assert(overlaps@.take(i as int) == overlaps@);
    }
    kept
}

/// Merges the overlaps of a read into their minimal covering set inside
/// `[0, length)`. Overlaps that touch or intersect are joined; overlaps of no
/// width are ignored; what reaches beyond `length` is cut off.
pub fn merge_overlaps(overlaps: &Vec<Interval>, length: u32) -> (merged: Vec<Interval>)
    ensures
        is_merged_cover(merged@, overlaps@, length as int),
{
    let mut sorted = clip_overlaps(overlaps, length);
    let ghost kept = sorted@;
    sort_intervals(&mut sorted);
    proof {
        lemma_within_same_items(kept, sorted@, length as int);
        assert forall|p: int| 0 <= p < length implies (#[trigger] covered(sorted@, p) <==> covered(
            overlaps@,
            p,
        )) by {
            lemma_covered_same_items(kept, sorted@, p);
            assert(covered(kept, p) <==> covered(overlaps@, p));
        }
    }
    let mut merged: Vec<Interval> = Vec::new();
    if sorted.len() == 0 {
        proof {
            assert forall|p: int| 0 <= p < length implies (#[trigger] covered(merged@, p) <==> covered(
                overlaps@,
                p,
            )) by {
                assert(!covered(sorted@, p));
            }
        }
        return merged;
    }
    let mut current: Interval = sorted[0];
    let mut i: usize = 1;
    proof {
        assert(sorted@.take(1) == Seq::<Interval>::empty().push(sorted@[0]));
        assert(merged@.push(current) == sorted@.take(1));
    }
    while i < sorted.len()
        invariant
            1 <= i <= sorted.len(),
            ascending(sorted@),
            within(sorted@, length as int),
            current.0 < current.1 <= length,
            separated(merged@, length as int),
            forall|a: int| 0 <= a < merged@.len() ==> (#[trigger] merged@[a]).1 < current.0,
            forall|k: int| i <= k < sorted@.len() ==> current.0 <= (#[trigger] sorted@[k]).0,
            forall|p: int| #[trigger]
                covered(merged@.push(current), p) <==> covered(sorted@.take(i as int), p),
        decreases sorted.len() - i,
    {
        let (start, end) = sorted[i];
        let ghost merged_before = merged@;
        let ghost current_before = current;
        proof {
            assert(sorted@[i as int].0 < sorted@[i as int].1 <= length);
            assert(sorted@.take(i + 1) == sorted@.take(i as int).push(sorted@[i as int]));
            assert forall|k: int| i + 1 <= k < sorted@.len() implies start <= (#[trigger] sorted@[k]).0 by {
                assert(precedes(sorted@[i as int], sorted@[k]));
            }
        }
        if start <= current.1 {
            if end > current.1 {
                current = (current.0, end);
            }
        } else {
            merged.push(current);
            current = (start, end);
        }
        proof {
            assert forall|p: int| #[trigger]
                covered(merged@.push(current), p) <==> covered(sorted@.take(i + 1), p) by {
                lemma_covered_push(sorted@.take(i as int), sorted@[i as int], p);
                lemma_covered_push(merged_before, current_before, p);
                lemma_covered_push(merged@, current, p);
                assert(covered(merged_before.push(current_before), p) <==> covered(
                    sorted@.take(i as int),
                    p,
                ));
                if merged@.len() > merged_before.len() {
                    assert(merged@ == merged_before.push(current_before));
                }
            }
        }
        i += 1;
    }
    let ghost closed = merged@;
    merged.push(current);
    proof {
        assert(sorted@.take(i as int) == sorted@);
        assert(merged@ == closed.push(current));
        assert forall|p: int| 0 <= p < length implies (#[trigger] covered(merged@, p) <==> covered(
            overlaps@,
            p,
        )) by {
            assert(covered(closed.push(current), p) <==> covered(sorted@.take(i as int), p));
            assert(covered(sorted@, p) <==> covered(overlaps@, p));
        }
    }
    merged
}

/// The bad regions left by a covering set: the leading gap before its first
/// interval, the gaps between consecutive intervals, and the trailing gap up
/// to `length`.
pub fn complement(merged: &Vec<Interval>, length: u32) -> (gaps: Vec<Interval>)
    requires
        separated(merged@, length as int),
    ensures
        is_bad_part(gaps@, merged@, length as int),
{
    let mut gaps: Vec<Interval> = Vec::new();
    let mut reached: u32 = 0;
    let mut i: usize = 0;
    while i < merged.len()
        invariant
            0 <= i <= merged.len(),
            separated(merged@, length as int),
            complemented(gaps@, merged@, reached as int),
            reached == reached_before(merged@, i as int),
        decreases merged.len() - i,
    {
        let (start, end) = merged[i];
        let ghost before = gaps@;
        proof {
            lemma_next_gap(before, merged@, length as int, i as int);
        }
        if start > reached {
            gaps.push((reached, start));
        }
        reached = end;
        i += 1;
    }
    let ghost before = gaps@;
    proof {
        lemma_next_gap(before, merged@, length as int, i as int);
    }
    if reached < length {
        gaps.push((reached, length));
    }
    gaps
}

/// `gaps` are the bad regions up to position `reached`: separated intervals
/// that hold exactly the positions below `reached` that `merged` does not.
spec fn complemented(gaps: Seq<Interval>, merged: Seq<Interval>, reached: int) -> bool {
    &&& separated(gaps, reached)
    &&& forall|p: int| 0 <= p < reached ==> (#[trigger] covered(gaps, p) <==> !covered(merged, p))
}

/// The position up to which the first `i` intervals of a covering set
/// account for a read: the end of the last of them.
spec fn reached_before(merged: Seq<Interval>, i: int) -> int {
    if i == 0 {
        0
    } else {
        merged[i - 1].1 as int
    }
}

/// The gaps with the one more that the next step of the sweep finds.
spec fn with_gap(gaps: Seq<Interval>, from: int, to: int) -> Seq<Interval> {
    if to > from {
        gaps.push((from as u32, to as u32))
    } else {
        gaps
    }
}

/// One step of the sweep over a covering set. With the gaps before the
/// `i`-th interval known, the gap up to the start of that interval, if there
/// is one, gives the gaps up to its end; past the last interval, the gap up to
/// `length` gives them all.
proof fn lemma_next_gap(gaps: Seq<Interval>, merged: Seq<Interval>, length: int, i: int)
    requires
        0 <= i <= merged.len(),
        0 <= length <= u32::MAX,
        separated(merged, length),
        complemented(gaps, merged, reached_before(merged, i)),
    ensures
        i < merged.len() ==> reached_before(merged, i) <= merged[i].0 && complemented(
            with_gap(gaps, reached_before(merged, i), merged[i].0 as int),
            merged,
            merged[i].1 as int,
        ),
        i == merged.len() ==> reached_before(merged, i) <= length && complemented(
            with_gap(gaps, reached_before(merged, i), length),
            merged,
            length,
        ),
{
    let reached = reached_before(merged, i);
    let next = if i < merged.len() {
        merged[i].0 as int
    } else {
        length
    };
    let upto = if i < merged.len() {
        merged[i].1 as int
    } else {
        length
    };
    if i > 0 {
        assert(merged[i - 1].0 < merged[i - 1].1 <= length);
        if i < merged.len() {
            assert(merged[i - 1].1 < merged[i].0);
        }
    }
    if i < merged.len() {
        assert(merged[i].0 < merged[i].1 <= length);
    }
    let after = with_gap(gaps, reached, next);
    assert forall|a: int| 0 <= a < gaps.len() implies (#[trigger] gaps[a]).1 < reached by {
        assert(gaps[a].0 < gaps[a].1 <= reached);
        let p = gaps[a].1 - 1;
        assert(holds(gaps[a], p));
        assert(covered(gaps, p));
        if gaps[a].1 == reached {
            assert(holds(merged[i - 1], p));
            assert(covered(merged, p));
        }
    }
    assert(separated(after, upto)) by {
        assert forall|a: int| 0 <= a < after.len() implies (#[trigger] after[a]).0 < after[a].1
            <= upto by {
            if a < gaps.len() {
                assert(gaps[a].1 <= reached);
            }
        }
        assert forall|a: int, b: int| 0 <= a < b < after.len() implies (#[trigger] after[a]).1 < (
        #[trigger] after[b]).0 by {
            if b < gaps.len() {
                assert(gaps[a].1 < gaps[b].0);
            } else {
                assert(gaps[a].1 < reached);
            }
        }
    }
    assert forall|p: int| 0 <= p < upto implies (#[trigger] covered(after, p) <==> !covered(
        merged,
        p,
    )) by {
        if p < reached {
            assert(covered(gaps, p) <==> !covered(merged, p));
            if covered(gaps, p) {
                let k = choose|k: int| 0 <= k < gaps.len() && holds(#[trigger] gaps[k], p);
                assert(holds(after[k], p));
            }
            if covered(after, p) {
                let k = choose|k: int| 0 <= k < after.len() && holds(#[trigger] after[k], p);
                if k < gaps.len() {
                    assert(holds(gaps[k], p));
                }
            }
        } else if p < next {
            assert(holds(after[after.len() - 1], p));
            if covered(merged, p) {
                let k = choose|k: int| 0 <= k < merged.len() && holds(#[trigger] merged[k], p);
                if k < i - 1 {
                    assert(merged[k].1 < merged[i - 1].0);
                } else if k > i {
                    assert(merged[i].1 < merged[k].0);
                }
            }
        } else {
            assert(holds(merged[i], p));
            if covered(after, p) {
                let k = choose|k: int| 0 <= k < after.len() && holds(#[trigger] after[k], p);
                if k < gaps.len() {
                    assert(gaps[k].1 <= reached);
                }
            }
        }
    }
}

/// The bad regions of a read of `length` positions: the maximal runs of
/// positions below `length` that none of the `overlaps` holds, in ascending
/// order. A read without overlaps has the single bad region `[0, length)`; a
/// read whose overlaps cover it entirely has none.
pub fn compute_bad_part(overlaps: &Vec<Interval>, length: u32) -> (gaps: Vec<Interval>)
    ensures
        is_bad_part(gaps@, overlaps@, length as int),
{
    let merged = merge_overlaps(overlaps, length);
    let gaps = complement(&merged, length);
    proof {
        assert forall|p: int| 0 <= p < length implies (#[trigger] covered(gaps@, p) <==> !covered(
            overlaps@,
            p,
        )) by {
            assert(covered(merged@, p) <==> covered(overlaps@, p));
        }
    }
    gaps
}

/// Separated intervals hold no position outside `[0, limit)`.
pub proof fn lemma_separated_in_range(s: Seq<Interval>, limit: int, p: int)
    requires
        separated(s, limit),
        covered(s, p),
    ensures
        0 <= p < limit,
{
    let k = choose|k: int| 0 <= k < s.len() && holds(#[trigger] s[k], p);
    assert(s[k].0 < s[k].1 <= limit);
}

/// The covering set and the bad regions of a read split `[0, length)` between
/// them: both lists are in ascending order with disjoint members, every
/// position below `length` lies in exactly one of the two, and neither holds a
/// position outside.
pub proof fn lemma_cover_and_bad_part_partition(
    merged: Seq<Interval>,
    gaps: Seq<Interval>,
    overlaps: Seq<Interval>,
    length: int,
)
    requires
        is_merged_cover(merged, overlaps, length),
        is_bad_part(gaps, overlaps, length),
    ensures
        separated(merged, length),
        separated(gaps, length),
        forall|p: int| 0 <= p < length ==> (#[trigger] covered(merged, p) <==> !covered(gaps, p)),
        forall|p: int| #[trigger] covered(merged, p) ==> 0 <= p < length,
        forall|p: int| #[trigger] covered(gaps, p) ==> 0 <= p < length,
{
    assert forall|p: int| 0 <= p < length implies (#[trigger] covered(merged, p) <==> !covered(
        gaps,
        p,
    )) by {
        assert(covered(merged, p) <==> covered(overlaps, p));
        assert(covered(gaps, p) <==> !covered(overlaps, p));
    }
    assert forall|p: int| #[trigger] covered(merged, p) implies 0 <= p < length by {
        lemma_separated_in_range(merged, length, p);
    }
    assert forall|p: int| #[trigger] covered(gaps, p) implies 0 <= p < length by {
        lemma_separated_in_range(gaps, length, p);
    }
}

/// Two lists of separated intervals that hold the same positions are the same
/// list.
pub proof fn lemma_separated_unique(a: Seq<Interval>, b: Seq<Interval>, limit: int)
    requires
        separated(a, limit),
        separated(b, limit),
        forall|p: int| #[trigger] covered(a, p) <==> covered(b, p),
    ensures
        a == b,
    decreases a.len(),
{
    if a.len() == 0 {
        if b.len() > 0 {
            assert(holds(b[0], b[0].0 as int));
            assert(covered(b, b[0].0 as int));
            assert(covered(a, b[0].0 as int));
        }
        assert(a =~= b);
    } else {
        if b.len() == 0 {
            assert(holds(a[0], a[0].0 as int));
            assert(covered(a, a[0].0 as int));
            assert(covered(b, a[0].0 as int));
        }
        lemma_first_holds_least(a, b, limit);
        lemma_first_holds_least(b, a, limit);
        lemma_first_ends_alike(a, b, limit);
        lemma_first_ends_alike(b, a, limit);
        let ta = a.drop_first();
        let tb = b.drop_first();
        assert forall|p: int| #[trigger] covered(ta, p) <==> covered(tb, p) by {
            lemma_covered_drop_first(a, limit, p);
            lemma_covered_drop_first(b, limit, p);
            assert(covered(a, p) <==> covered(b, p));
        }
        assert(separated(ta, limit)) by {
            assert forall|i: int| 0 <= i < ta.len() implies (#[trigger] ta[i]).0 < ta[i].1 <= limit by {
                assert(ta[i] == a[i + 1]);
            }
            assert forall|i: int, j: int| 0 <= i < j < ta.len() implies (#[trigger] ta[i]).1 < (
            #[trigger] ta[j]).0 by {
                assert(ta[i] == a[i + 1]);
                assert(ta[j] == a[j + 1]);
            }
        }
        assert(separated(tb, limit)) by {
            assert forall|i: int| 0 <= i < tb.len() implies (#[trigger] tb[i]).0 < tb[i].1 <= limit by {
                assert(tb[i] == b[i + 1]);
            }
            assert forall|i: int, j: int| 0 <= i < j < tb.len() implies (#[trigger] tb[i]).1 < (
            #[trigger] tb[j]).0 by {
                assert(tb[i] == b[i + 1]);
                assert(tb[j] == b[j + 1]);
            }
        }
        lemma_separated_unique(ta, tb, limit);
        assert(a =~= seq![a[0]] + ta);
        assert(b =~= seq![b[0]] + tb);
    }
}

/// The first of a list of separated intervals starts no later than any
/// interval of a list that holds the same positions.
proof fn lemma_first_holds_least(a: Seq<Interval>, b: Seq<Interval>, limit: int)
    requires
        separated(a, limit),
        separated(b, limit),
        a.len() > 0,
        b.len() > 0,
        forall|p: int| #[trigger] covered(a, p) <==> covered(b, p),
    ensures
        a[0].0 <= b[0].0,
{
    let p = b[0].0 as int;
    assert(holds(b[0], p));
    assert(covered(b, p));
    assert(covered(a, p));
    let k = choose|k: int| 0 <= k < a.len() && holds(#[trigger] a[k], p);
    if k > 0 {
        assert(a[0].1 < a[k].0);
    }
}

/// With equal starts, the first interval of one list of separated intervals
/// ends no later than the first of another list that holds the same positions.
proof fn lemma_first_ends_alike(a: Seq<Interval>, b: Seq<Interval>, limit: int)
    requires
        separated(a, limit),
        separated(b, limit),
        a.len() > 0,
        b.len() > 0,
        a[0].0 == b[0].0,
        forall|p: int| #[trigger] covered(a, p) <==> covered(b, p),
    ensures
        a[0].1 >= b[0].1,
{
    if a[0].1 < b[0].1 {
        let p = a[0].1 as int;
        assert(holds(b[0], p));
        assert(covered(b, p));
        assert(covered(a, p));
        let k = choose|k: int| 0 <= k < a.len() && holds(#[trigger] a[k], p);
        if k > 0 {
            assert(a[0].1 < a[k].0);
        }
    }
}

/// The positions held by all but the first of a list of separated intervals
/// are those that the list holds and its first interval does not.
proof fn lemma_covered_drop_first(a: Seq<Interval>, limit: int, p: int)
    requires
        separated(a, limit),
        a.len() > 0,
    ensures
        covered(a.drop_first(), p) <==> covered(a, p) && !holds(a[0], p),
{
    let t = a.drop_first();
    if covered(t, p) {
        let k = choose|k: int| 0 <= k < t.len() && holds(#[trigger] t[k], p);
        assert(t[k] == a[k + 1]);
        assert(holds(a[k + 1], p));
        assert(a[0].1 < a[k + 1].0);
    }
    if covered(a, p) && !holds(a[0], p) {
        let k = choose|k: int| 0 <= k < a.len() && holds(#[trigger] a[k], p);
        assert(t[k - 1] == a[k]);
        assert(holds(t[k - 1], p));
    }
}

/// A read has exactly one list of bad regions.
pub proof fn lemma_bad_part_unique(
    first: Seq<Interval>,
    second: Seq<Interval>,
    overlaps: Seq<Interval>,
    length: int,
)
    requires
        is_bad_part(first, overlaps, length),
        is_bad_part(second, overlaps, length),
    ensures
        first == second,
{
    assert forall|p: int| #[trigger] covered(first, p) <==> covered(second, p) by {
        if covered(first, p) {
            lemma_separated_in_range(first, length, p);
        }
        if covered(second, p) {
            lemma_separated_in_range(second, length, p);
        }
        if 0 <= p < length {
            assert(covered(first, p) <==> !covered(overlaps, p));
            assert(covered(second, p) <==> !covered(overlaps, p));
        }
    }
    lemma_separated_unique(first, second, length);
}

/// A read has exactly one covering set.
pub proof fn lemma_merged_cover_unique(
    first: Seq<Interval>,
    second: Seq<Interval>,
    overlaps: Seq<Interval>,
    length: int,
)
    requires
        is_merged_cover(first, overlaps, length),
        is_merged_cover(second, overlaps, length),
    ensures
        first == second,
{
    assert forall|p: int| #[trigger] covered(first, p) <==> covered(second, p) by {
        if covered(first, p) {
            lemma_separated_in_range(first, length, p);
        }
        if covered(second, p) {
            lemma_separated_in_range(second, length, p);
        }
        if 0 <= p < length {
            assert(covered(first, p) <==> covered(overlaps, p));
            assert(covered(second, p) <==> covered(overlaps, p));
        }
    }
    lemma_separated_unique(first, second, length);
}

/// The bad regions of a read depend only on the positions that its overlaps
/// hold, not on their order or multiplicity.
pub proof fn lemma_bad_part_of_same_coverage(
    gaps: Seq<Interval>,
    overlaps: Seq<Interval>,
    others: Seq<Interval>,
    length: int,
)
    requires
        is_bad_part(gaps, overlaps, length),
        forall|p: int| 0 <= p < length ==> (#[trigger] covered(overlaps, p) <==> covered(others, p)),
    ensures
        is_bad_part(gaps, others, length),
{
    assert forall|p: int| 0 <= p < length implies (#[trigger] covered(gaps, p) <==> !covered(
        others,
        p,
    )) by {
        assert(covered(gaps, p) <==> !covered(overlaps, p));
        assert(covered(overlaps, p) <==> covered(others, p));
    }
}

/// A read of positive length without overlaps has the single bad region
/// `[0, length)`.
pub proof fn lemma_bad_part_without_overlaps(length: u32)
    requires
        length > 0,
    ensures
        is_bad_part(seq![(0u32, length)], Seq::<Interval>::empty(), length as int),
{
    let gaps = seq![(0u32, length)];
    assert forall|p: int| 0 <= p < length implies (#[trigger] covered(gaps, p) <==> !covered(
        Seq::<Interval>::empty(),
        p,
    )) by {
        assert(holds(gaps[0], p));
    }
}

/// A read whose overlaps hold every position of it has no bad region.
pub proof fn lemma_bad_part_of_covered_read(overlaps: Seq<Interval>, length: int)
    requires
        forall|p: int| 0 <= p < length ==> #[trigger] covered(overlaps, p),
    ensures
        is_bad_part(Seq::<Interval>::empty(), overlaps, length),
{
    assert forall|p: int| 0 <= p < length implies (#[trigger] covered(Seq::<Interval>::empty(), p)
        <==> !covered(overlaps, p)) by {
        assert(covered(overlaps, p));
    }
}

} // verus!
