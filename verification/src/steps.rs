//! The animated, step-paced forms of the two sorts. Each machine performs
//! one visible step per call: clear the old highlights, mark the two
//! positions under consideration, compare and possibly swap, and advance.
//! The runner that owns the lock drives the machine - lock, step, unlock,
//! request a repaint, sleep for the clock interval, poll the token - so a
//! run can be watched, paced and cancelled at every step boundary.
use vstd::prelude::*;

use crate::datatypes::cleared;
use crate::datatypes::highlights_off;
use crate::datatypes::sorted;
use crate::datatypes::vals;
use crate::datatypes::Highlight;
use crate::datatypes::Number;
use crate::datatypes::NumberVec;
use crate::lemmas::lemma_seg_multiset_combine;
use crate::lemmas::lemma_swap_seg_multiset;
use crate::lemmas::lemma_vals_swap;

verus! {

/// The values at and above `from` are in their final place: sorted among
/// themselves and at least every value before them.
pub open spec fn settled_suffix(s: Seq<Number>, from: int) -> bool {
    forall|a: int, b: int|
        0 <= a <= b < s.len() && from <= b ==> #[trigger] vals(s)[a] <= #[trigger] vals(s)[b]
}

/// The largest value of the prefix `0..=i` sits at `i`: the bubble the
/// current pass is pushing right.
pub open spec fn prefix_max(s: Seq<Number>, i: int) -> bool {
    forall|k: int| 0 <= k <= i ==> #[trigger] vals(s)[k] <= vals(s)[i]
}

/// What one visible bubble-sort step at position `i` leaves behind: all
/// highlights cleared, the compared pair `(i, i + 1)` marked primary and
/// secondary, and the two records swapped when they were out of order (the
/// marks travel with the records, as every field of a record moves
/// together).
pub open spec fn bubble_step_result(s: Seq<Number>, i: int) -> Seq<Number> {
    let base = cleared(s);
    let marked = base.update(i, Number { highlight: Highlight::Primary, ..base[i] }).update(
        i + 1,
        Number { highlight: Highlight::Secondary, ..base[i + 1] },
    );
    if vals(s)[i] > vals(s)[i + 1] {
        marked.update(i, marked[i + 1]).update(i + 1, marked[i])
    } else {
        marked
    }
}

/// A bubble sort in flight: `pass` outer passes are complete, and the next
/// comparison of the current pass is at `(i, i + 1)`.
pub struct BubbleRun {
    pub pass: usize,
    pub i: usize,
    pub done: bool,
}

/// What holds of a bubble run between steps: while it runs, the last
/// `pass` elements are settled in their final places and the prefix
/// maximum has bubbled up to `i`; when it is done, the sequence is sorted.
pub open spec fn bubble_inv(m: BubbleRun, s: Seq<Number>) -> bool {
    let n = s.len() as int;
    &&& !m.done ==> {
        &&& n >= 2
        &&& m.pass < n - 1
        &&& m.i < n - 1 - m.pass
        &&& settled_suffix(s, n - m.pass)
        &&& prefix_max(s, m.i as int)
    }
    &&& m.done ==> sorted(vals(s))
}

impl BubbleRun {
    /// Starts a run over the sequence; a sequence of fewer than two
    /// elements has nothing to compare and is done at once.
    pub fn new(nums: &NumberVec) -> (m: BubbleRun)
        ensures
            bubble_inv(m, nums@),
            m.done <==> nums@.len() < 2,
            !m.done ==> m.pass == 0 && m.i == 0,
    {
        let len = nums.len();
        BubbleRun { pass: 0, i: 0, done: len < 2 }
    }

    pub fn is_done(&self) -> (b: bool)
        ensures
            b == self.done,
    {
        self.done
    }

    /// One visible step: clear the old highlights, mark the pair under
    /// consideration, compare, swap when out of order, and advance. The
    /// step that completes the final pass clears all highlights and ends
    /// the run with the sequence sorted.
    pub fn step(&mut self, nums: &mut NumberVec)
        requires
            bubble_inv(*old(self), old(nums)@),
            !old(self).done,
        ensures
            bubble_inv(*final(self), final(nums)@),
            final(nums)@.len() == old(nums)@.len(),
            vals(final(nums)@).to_multiset() == vals(old(nums)@).to_multiset(),
            !final(self).done ==> final(nums)@ == bubble_step_result(
                old(nums)@,
                old(self).i as int,
            ),
            final(self).done ==> final(nums)@ == cleared(
                bubble_step_result(old(nums)@, old(self).i as int),
            ),
            final(self).done ==> highlights_off(final(nums)@),
            final(self).pass >= old(self).pass,
            !final(self).done ==> (final(self).pass == old(self).pass && final(self).i == old(
                self,
            ).i + 1) || (final(self).pass == old(self).pass + 1 && final(self).i == 0),
    {
        let ghost pre = nums@;
        let i = self.i;
        let n = nums.len();
        assert(i + 1 < n);  // the pending comparison is inside the sequence
        nums.remove_all_highlights();
        nums.add_highlight(i, Highlight::Primary).unwrap();
        nums.add_highlight(i + 1, Highlight::Secondary).unwrap();
        let ghost marked = nums@;
        if nums.values[i].value > nums.values[i + 1].value {
            nums.swap(i, i + 1);
            proof {
                lemma_vals_swap(marked, i as int, i as int + 1);
            }
        }
        proof {
            assert(nums@ =~= bubble_step_result(pre, i as int));
            assert(vals(nums@) =~= (if vals(pre)[i as int] > vals(pre)[i as int + 1] {
                vals(pre).update(i as int, vals(pre)[i as int + 1]).update(
                    i as int + 1,
                    vals(pre)[i as int],
                )
            } else {
                vals(pre)
            }));
            if vals(pre)[i as int] > vals(pre)[i as int + 1] {
                lemma_swap_seg_multiset(
                    vals(pre),
                    0,
                    pre.len() as int - 1,
                    i as int,
                    i as int + 1,
                );
                assert(vals(pre).subrange(0, pre.len() as int) =~= vals(pre));
                assert(vals(nums@).subrange(0, pre.len() as int) =~= vals(nums@));
            }
            // The step kept the settled suffix settled and bubbled the
            // prefix maximum one position further.
            assert(settled_suffix(nums@, pre.len() - self.pass));
            assert(prefix_max(nums@, i as int + 1));
        }
        let limit = n - self.pass - 1;
        if i + 1 < limit {
            self.i = i + 1;
        } else {
            self.pass += 1;
            self.i = 0;
            proof {
                assert(settled_suffix(nums@, pre.len() - self.pass));
            }
            if self.pass >= n - 1 {
                proof {
                    assert(sorted(vals(nums@)));
                }
                let ghost before_clear = nums@;
                nums.remove_all_highlights();
                proof {
                    assert(vals(nums@) =~= vals(before_clear));
                }
                self.done = true;
            }
        }
    }
}

/// The inclusive index range `r` contains `x`.
pub open spec fn rng_has(r: (usize, usize), x: int) -> bool {
    r.0 <= x <= r.1
}

/// Two inclusive ranges share no index (an empty range shares none).
pub open spec fn ranges_disjoint(r1: (usize, usize), r2: (usize, usize)) -> bool {
    r1.0 > r1.1 || r2.0 > r2.1 || r1.1 < r2.0 || r2.1 < r1.0
}

pub open spec fn pairwise_disjoint(ranges: Seq<(usize, usize)>) -> bool {
    forall|x: int, y: int|
        0 <= x < y < ranges.len() ==> ranges_disjoint(#[trigger] ranges[x], #[trigger] ranges[y])
}

/// Some one of the ranges contains both positions.
pub open spec fn covered(ranges: Seq<(usize, usize)>, a: int, b: int) -> bool {
    exists|k: int| 0 <= k < ranges.len() && rng_has(#[trigger] ranges[k], a) && rng_has(ranges[k], b)
}

/// Every pair of positions that no single pending range contains is
/// already in order: the sortedness a quicksort has established outside
/// the segments it still has to work on.
pub open spec fn cross_sorted(v: Seq<u8>, ranges: Seq<(usize, usize)>) -> bool {
    forall|a: int, b: int|
        0 <= a < b < v.len() && !(#[trigger] covered(ranges, a, b)) ==> v[a] <= v[b]
}

/// Permuting the values inside one of a family of pairwise disjoint ranges
/// preserves cross-sortedness: a pair no range contains has at most one
/// end inside the permuted range, and the value there stays one of the
/// values of that range, all of which were ordered against the other end.
proof fn lemma_cross_preserved(
    v1: Seq<u8>,
    v2: Seq<u8>,
    ranges: Seq<(usize, usize)>,
    t: int,
)
    requires
        v1.len() == v2.len(),
        0 <= t < ranges.len(),
        ranges[t].0 <= ranges[t].1 < v1.len(),
        pairwise_disjoint(ranges),
        cross_sorted(v1, ranges),
        forall|x: int| 0 <= x < v1.len() && !rng_has(ranges[t], x) ==> v2[x] == v1[x],
        forall|x: int|
            rng_has(ranges[t], x) ==> exists|y: int|
                rng_has(#[trigger] ranges[t], y) && v2[x] == v1[y],
    ensures
        cross_sorted(v2, ranges),
{
    assert forall|a: int, b: int|
        0 <= a < b < v2.len() && !covered(ranges, a, b) implies #[trigger] v2[a]
        <= #[trigger] v2[b] by {
        let r = ranges[t];
        if rng_has(r, a) && rng_has(r, b) {
            assert(covered(ranges, a, b));
        } else if rng_has(r, a) {
            // `b` lies above the range, and `v2[a]` is one of the range's
            // old values, each of which was at most `v1[b]`.
            let y = choose|y: int| rng_has(ranges[t], y) && v2[a] == v1[y];
            assert(b > r.1 as int);
            assert forall|k: int|
                0 <= k < ranges.len() implies !(rng_has(#[trigger] ranges[k], y) && rng_has(
                ranges[k],
                b,
            )) by {
                if k != t && rng_has(ranges[k], y) && rng_has(ranges[k], b) {
                    if k < t {
                        assert(ranges_disjoint(ranges[k], ranges[t]));
                    } else {
                        assert(ranges_disjoint(ranges[t], ranges[k]));
                    }
                }
            }
            assert(!covered(ranges, y, b));
            assert(v1[y] <= v1[b]);
        } else if rng_has(r, b) {
            let y = choose|y: int| rng_has(ranges[t], y) && v2[b] == v1[y];
            assert(a < r.0 as int);
            assert forall|k: int|
                0 <= k < ranges.len() implies !(rng_has(#[trigger] ranges[k], a) && rng_has(
                ranges[k],
                y,
            )) by {
                if k != t && rng_has(ranges[k], a) && rng_has(ranges[k], y) {
                    if k < t {
                        assert(ranges_disjoint(ranges[k], ranges[t]));
                    } else {
                        assert(ranges_disjoint(ranges[t], ranges[k]));
                    }
                }
            }
            assert(!covered(ranges, a, y));
            assert(v1[a] <= v1[y]);
        } else {
            assert(v1[a] <= v1[b]);
        }
    }
}

/// The values after one visible scan step: the compared record was either
/// swapped into the slot or left alone; the highlight work changes no
/// value.
proof fn lemma_scan_result_vals(pre: Seq<Number>, sc: ScanState)
    requires
        scan_ok(sc, vals(pre)),
        sc.j < sc.hi,
    ensures
        quick_scan_result(pre, sc).len() == pre.len(),
        vals(quick_scan_result(pre, sc)) == (if vals(pre)[sc.j as int] <= sc.pivot {
            vals(pre).update(sc.slot as int, vals(pre)[sc.j as int]).update(
                sc.j as int,
                vals(pre)[sc.slot as int],
            )
        } else {
            vals(pre)
        }),
{
    assert(vals(quick_scan_result(pre, sc)) =~= (if vals(pre)[sc.j as int] <= sc.pivot {
        vals(pre).update(sc.slot as int, vals(pre)[sc.j as int]).update(
            sc.j as int,
            vals(pre)[sc.slot as int],
        )
    } else {
        vals(pre)
    }));
}

/// Swapping two positions of a value sequence preserves its multiset.
proof fn lemma_swap_multiset(v: Seq<u8>, i: int, j: int)
    requires
        0 <= i < v.len(),
        0 <= j < v.len(),
    ensures
        v.update(i, v[j]).update(j, v[i]).to_multiset() == v.to_multiset(),
{
    let lo: int = if i <= j {
        i
    } else {
        j
    };
    let hi: int = if i <= j {
        j
    } else {
        i
    };
    let n = v.len() as int;
    let w = v.update(i, v[j]).update(j, v[i]);
    lemma_swap_seg_multiset(v, lo, hi, i, j);
    assert(w.subrange(0, lo) =~= v.subrange(0, lo));
    assert(w.subrange(hi + 1, n) =~= v.subrange(hi + 1, n));
    lemma_seg_multiset_combine(w, v, 0, lo, hi);
    lemma_seg_multiset_combine(w, v, 0, hi + 1, n - 1);
    assert(w.subrange(0, n) =~= w);
    assert(v.subrange(0, n) =~= v);
}

/// What one visible scan step does to the values and the scan state, and
/// what it preserves: the multiset is untouched, cross-sortedness w.r.t.
/// the unchanged family of pending segments survives the in-segment swap,
/// and the scan stays a well-formed Lomuto scan one position further on.
proof fn lemma_scan_step_spec(v1: Seq<u8>, v2: Seq<u8>, sc: ScanState, ranges: Seq<(usize, usize)>)
    requires
        scan_ok(sc, v1),
        sc.j < sc.hi,
        v2 == (if v1[sc.j as int] <= sc.pivot {
            v1.update(sc.slot as int, v1[sc.j as int]).update(sc.j as int, v1[sc.slot as int])
        } else {
            v1
        }),
        ranges.len() >= 1,
        ranges[ranges.len() - 1] == (sc.lo, sc.hi),
        forall|k: int| 0 <= k < ranges.len() ==> (#[trigger] ranges[k]).1 < v1.len(),
        pairwise_disjoint(ranges),
        cross_sorted(v1, ranges),
    ensures
        v2.len() == v1.len(),
        v2.to_multiset() == v1.to_multiset(),
        cross_sorted(v2, ranges),
        scan_ok(
            ScanState {
                slot: if v1[sc.j as int] <= sc.pivot {
                    (sc.slot + 1) as usize
                } else {
                    sc.slot
                },
                j: (sc.j + 1) as usize,
                ..sc
            },
            v2,
        ),
{
    let take_it = v1[sc.j as int] <= sc.pivot;
    if take_it {
        lemma_swap_multiset(v1, sc.slot as int, sc.j as int);
    }
    let t = ranges.len() - 1;
    assert forall|x: int| rng_has(ranges[t], x) implies exists|y: int|
        rng_has(#[trigger] ranges[t], y) && v2[x] == v1[y] by {
        if take_it && x == sc.slot {
            assert(rng_has(ranges[t], sc.j as int) && v2[x] == v1[sc.j as int]);
        } else if take_it && x == sc.j {
            assert(rng_has(ranges[t], sc.slot as int) && v2[x] == v1[sc.slot as int]);
        } else {
            assert(rng_has(ranges[t], x) && v2[x] == v1[x]);
        }
    }
    lemma_cross_preserved(v1, v2, ranges, t);
}

/// The segments pending after a finished partition: the two halves beside
/// the placed pivot, the left one only when the pivot did not land at the
/// very front.
pub open spec fn child_ranges(stack: Seq<(usize, usize)>, sc: ScanState) -> Seq<(usize, usize)> {
    if sc.slot >= 1 {
        stack.push(((sc.lo, (sc.slot - 1) as usize))).push((((sc.slot + 1) as usize, sc.hi)))
    } else {
        stack.push((((sc.slot + 1) as usize, sc.hi)))
    }
}

/// The two halves of a finished segment lie inside the sequence and are
/// pairwise disjoint among themselves and the remaining segments.
proof fn lemma_children_disjoint(stack: Seq<(usize, usize)>, sc: ScanState, n: int)
    requires
        sc.lo <= sc.slot <= sc.hi,
        sc.lo < sc.hi < n,
        sc.hi < usize::MAX,
        forall|k: int|
            0 <= k < stack.push((sc.lo, sc.hi)).len() ==> (#[trigger] stack.push(
                (sc.lo, sc.hi),
            )[k]).1 < n,
        pairwise_disjoint(stack.push((sc.lo, sc.hi))),
    ensures
        forall|k: int|
            0 <= k < child_ranges(stack, sc).len() ==> (#[trigger] child_ranges(stack, sc)[k]).1
                < n,
        pairwise_disjoint(child_ranges(stack, sc)),
{
    let rs_old = stack.push((sc.lo, sc.hi));
    let rs_new = child_ranges(stack, sc);
    let stack_len = stack.len() as int;
    assert(rs_old[stack_len] == (sc.lo, sc.hi));
    if sc.slot >= 1 {
        assert(rs_new[stack_len] == (sc.lo, (sc.slot - 1) as usize));
        assert(rs_new[stack_len + 1] == ((sc.slot + 1) as usize, sc.hi));
    } else {
        assert(rs_new[stack_len] == ((sc.slot + 1) as usize, sc.hi));
    }
    assert(forall|k: int| 0 <= k < stack_len ==> rs_new[k] == rs_old[k]);
    assert forall|k: int| 0 <= k < rs_new.len() implies (#[trigger] rs_new[k]).1 < n by {
        if k < stack_len {
            assert((rs_old[k]).1 < n);
        }
    }
    assert forall|x: int, y: int| 0 <= x < y < rs_new.len() implies ranges_disjoint(
        #[trigger] rs_new[x],
        #[trigger] rs_new[y],
    ) by {
        if y < stack_len {
            assert(ranges_disjoint(rs_old[x], rs_old[y]));
        } else if x < stack_len {
            assert(ranges_disjoint(rs_old[x], rs_old[stack_len]));
        }
    }
}

/// With the pivot in place, splitting the finished segment into its two
/// halves keeps every pair of positions outside a single pending segment
/// ordered: a pair inside the finished segment that no half contains
/// straddles the pivot.
proof fn lemma_children_cross(v2: Seq<u8>, stack: Seq<(usize, usize)>, sc: ScanState)
    requires
        sc.lo <= sc.slot <= sc.hi,
        sc.lo < sc.hi < v2.len(),
        sc.hi < usize::MAX,
        v2[sc.slot as int] == sc.pivot,
        forall|k: int| sc.lo <= k < sc.slot ==> #[trigger] v2[k] <= sc.pivot,
        forall|k: int| sc.slot < k <= sc.hi ==> #[trigger] v2[k] >= sc.pivot,
        cross_sorted(v2, stack.push((sc.lo, sc.hi))),
    ensures
        cross_sorted(v2, child_ranges(stack, sc)),
{
    let p = sc.slot as int;
    let rs_old = stack.push((sc.lo, sc.hi));
    let rs_new = child_ranges(stack, sc);
    let stack_len = stack.len() as int;
    let t = stack_len;
    assert(rs_old[t] == (sc.lo, sc.hi));
    if sc.slot >= 1 {
        assert(rs_new[stack_len] == (sc.lo, (sc.slot - 1) as usize));
        assert(rs_new[stack_len + 1] == ((sc.slot + 1) as usize, sc.hi));
    } else {
        assert(rs_new[stack_len] == ((sc.slot + 1) as usize, sc.hi));
    }
    assert(forall|k: int| 0 <= k < stack_len ==> rs_new[k] == rs_old[k]);
    assert forall|a: int, b: int|
        0 <= a < b < v2.len() && !(#[trigger] covered(rs_new, a, b)) implies v2[a] <= v2[b] by {
        if covered(rs_old, a, b) {
            let k = choose|k: int|
                0 <= k < rs_old.len() && rng_has(#[trigger] rs_old[k], a) && rng_has(
                    rs_old[k],
                    b,
                );
            if k < t {
                assert(rng_has(rs_new[k], a) && rng_has(rs_new[k], b));
                assert(covered(rs_new, a, b));
            } else {
                assert(sc.lo <= a < b <= sc.hi);
                if b < p {
                    assert(rng_has(rs_new[stack_len], a) && rng_has(rs_new[stack_len], b));
                    assert(covered(rs_new, a, b));
                } else if a > p {
                    let right = rs_new.len() - 1;
                    assert(rng_has(rs_new[right], a) && rng_has(rs_new[right], b));
                    assert(covered(rs_new, a, b));
                } else {
                    assert(a <= p <= b);
                    assert(v2[a] <= sc.pivot);
                    assert(v2[b] >= sc.pivot);
                }
            }
        }
    }
}

/// What placing the pivot does: the final swap keeps the multiset, the
/// finished segment is partitioned around the pivot's final position, and
/// cross-sortedness holds of the stack with the finished segment replaced
/// by its two halves.
proof fn lemma_finish_step_spec(
    v1: Seq<u8>,
    v2: Seq<u8>,
    sc: ScanState,
    stack: Seq<(usize, usize)>,
)
    requires
        scan_ok(sc, v1),
        sc.j == sc.hi,
        sc.hi < usize::MAX,
        v2 == v1.update(sc.slot as int, v1[sc.hi as int]).update(
            sc.hi as int,
            v1[sc.slot as int],
        ),
        forall|k: int|
            0 <= k < stack.push((sc.lo, sc.hi)).len() ==> (#[trigger] stack.push(
                (sc.lo, sc.hi),
            )[k]).1 < v1.len(),
        pairwise_disjoint(stack.push((sc.lo, sc.hi))),
        cross_sorted(v1, stack.push((sc.lo, sc.hi))),
    ensures
        v2.len() == v1.len(),
        v2.to_multiset() == v1.to_multiset(),
        forall|k: int|
            0 <= k < child_ranges(stack, sc).len() ==> (#[trigger] child_ranges(stack, sc)[k]).1
                < v2.len(),
        pairwise_disjoint(child_ranges(stack, sc)),
        cross_sorted(v2, child_ranges(stack, sc)),
{
    let p = sc.slot as int;
    let rs_old = stack.push((sc.lo, sc.hi));
    let t = rs_old.len() - 1;
    lemma_swap_multiset(v1, p, sc.hi as int);
    // Cross-sortedness survives the swap inside the finished segment.
    assert forall|x: int| rng_has(rs_old[t], x) implies exists|y: int|
        rng_has(#[trigger] rs_old[t], y) && v2[x] == v1[y] by {
        if x == p {
            assert(rng_has(rs_old[t], sc.hi as int) && v2[x] == v1[sc.hi as int]);
        } else if x == sc.hi {
            assert(rng_has(rs_old[t], p) && v2[x] == v1[p]);
        } else {
            assert(rng_has(rs_old[t], x) && v2[x] == v1[x]);
        }
    }
    lemma_cross_preserved(v1, v2, rs_old, t);
    // The placed pivot partitions its segment.
    assert(v2[p] == sc.pivot);
    assert forall|k: int| sc.lo <= k < p implies #[trigger] v2[k] <= sc.pivot by {
        assert(v2[k] == v1[k]);
    }
    assert forall|k: int| p < k <= sc.hi implies #[trigger] v2[k] >= sc.pivot by {
        if k < sc.hi {
            assert(v2[k] == v1[k]);
        } else {
            assert(v2[k] == v1[p]);
        }
    }
    lemma_children_disjoint(stack, sc, v1.len() as int);
    lemma_children_cross(v2, stack, sc);
}

/// One partition scan in progress over the segment `lo..=hi`: `pivot` is
/// the value that started at `hi`, every value in `lo..slot` is at most
/// the pivot, every value in `slot..j` is above it, and `j` is the
/// position the next step will look at.
#[derive(Clone, Copy, Debug)]
pub struct ScanState {
    pub lo: usize,
    pub hi: usize,
    pub pivot: u8,
    pub slot: usize,
    pub j: usize,
}

pub open spec fn scan_ok(sc: ScanState, v: Seq<u8>) -> bool {
    &&& sc.lo < sc.hi < v.len()
    &&& sc.lo <= sc.slot <= sc.j <= sc.hi
    &&& v[sc.hi as int] == sc.pivot
    &&& forall|k: int| sc.lo <= k < sc.slot ==> #[trigger] v[k] <= sc.pivot
    &&& forall|k: int| sc.slot <= k < sc.j ==> #[trigger] v[k] > sc.pivot
}

/// A quicksort in flight, recursion made explicit: a stack of segments
/// still to be partitioned, and at most one partition scan under way.
pub struct QuickRun {
    pub stack: Vec<(usize, usize)>,
    pub scan: Option<ScanState>,
    pub done: bool,
}

/// The pending segments, the active scan's segment last.
pub open spec fn ranges_of(m: QuickRun) -> Seq<(usize, usize)> {
    match m.scan {
        Some(sc) => m.stack@.push((sc.lo, sc.hi)),
        None => m.stack@,
    }
}

/// What holds of a quicksort run between steps: the pending segments lie
/// inside the sequence and are pairwise disjoint, every pair of positions
/// not inside a single pending segment is already ordered, and an active
/// scan is a well-formed Lomuto scan. Once the run is done nothing is
/// pending, so the whole sequence is ordered.
pub open spec fn quick_inv(m: QuickRun, s: Seq<Number>) -> bool {
    &&& forall|k: int| 0 <= k < ranges_of(m).len() ==> (#[trigger] ranges_of(m)[k]).1 < s.len()
    &&& pairwise_disjoint(ranges_of(m))
    &&& cross_sorted(vals(s), ranges_of(m))
    &&& (m.scan matches Some(sc) ==> scan_ok(sc, vals(s)))
    &&& m.done ==> m.stack@.len() == 0 && m.scan is None
}

/// A run that is done has sorted the whole sequence: no pending segment
/// covers any pair, so cross-sortedness is sortedness.
pub proof fn lemma_quick_done_sorted(m: QuickRun, s: Seq<Number>)
    requires
        quick_inv(m, s),
        m.done,
    ensures
        sorted(vals(s)),
{
    assert(ranges_of(m).len() == 0);
    assert forall|a: int, b: int| 0 <= a < b < vals(s).len() implies #[trigger] vals(s)[a]
        <= #[trigger] vals(s)[b] by {
        assert(!covered(ranges_of(m), a, b));
    }
}

/// What one visible scan step leaves behind: all highlights cleared, the
/// last settled slot (when there is one) marked primary and the scanned
/// position marked secondary, and the scanned record swapped into the slot
/// when its value is not above the pivot (the marks travel with the
/// records).
pub open spec fn quick_scan_result(s: Seq<Number>, sc: ScanState) -> Seq<Number> {
    let base = cleared(s);
    let marked0 = if sc.slot >= 1 {
        base.update(
            sc.slot - 1,
            Number { highlight: Highlight::Primary, ..base[sc.slot as int - 1] },
        )
    } else {
        base
    };
    let marked = marked0.update(
        sc.j as int,
        Number { highlight: Highlight::Secondary, ..marked0[sc.j as int] },
    );
    if vals(s)[sc.j as int] <= sc.pivot {
        marked.update(sc.slot as int, marked[sc.j as int]).update(
            sc.j as int,
            marked[sc.slot as int],
        )
    } else {
        marked
    }
}

impl QuickRun {
    /// Starts a run over the whole sequence; an empty sequence is done at
    /// once.
    pub fn new(nums: &NumberVec) -> (m: QuickRun)
        ensures
            quick_inv(m, nums@),
            m.done <==> nums@.len() == 0,
    {
        let len = nums.len();
        let mut stack: Vec<(usize, usize)> = Vec::new();
        if len > 0 {
            stack.push((0, len - 1));
        }
        let m = QuickRun { stack, scan: None, done: len == 0 };
        proof {
            if len > 0 {
                assert(ranges_of(m) =~= seq![(0usize, (len - 1) as usize)]);
                assert forall|a: int, b: int| 0 <= a < b < vals(nums@).len() implies covered(
                    ranges_of(m),
                    a,
                    b,
                ) by {
                    assert(rng_has(ranges_of(m)[0], a) && rng_has(ranges_of(m)[0], b));
                }
            }
        }
        m
    }

    pub fn is_done(&self) -> (b: bool)
        ensures
            b == self.done,
    {
        self.done
    }

    /// One step of the run. While a scan is under way a step is one
    /// visible comparison (clear, mark, compare, maybe swap); a scan whose
    /// positions are exhausted places its pivot and pushes the two
    /// sub-segments; with no scan under way the next pending segment is
    /// taken up, or, when nothing is pending, the run clears all
    /// highlights and finishes with the sequence sorted.
    pub fn step(&mut self, nums: &mut NumberVec)
        requires
            quick_inv(*old(self), old(nums)@),
            !old(self).done,
        ensures
            quick_inv(*final(self), final(nums)@),
            final(nums)@.len() == old(nums)@.len(),
            vals(final(nums)@).to_multiset() == vals(old(nums)@).to_multiset(),
            old(self).scan matches Some(sc) ==> {
                &&& sc.j < sc.hi ==> {
                    &&& final(nums)@ == quick_scan_result(old(nums)@, sc)
                    &&& final(self).stack@ == old(self).stack@
                    &&& final(self).scan == Some(
                        ScanState {
                            slot: if vals(old(nums)@)[sc.j as int] <= sc.pivot {
                                (sc.slot + 1) as usize
                            } else {
                                sc.slot
                            },
                            j: (sc.j + 1) as usize,
                            ..sc
                        },
                    )
                    &&& !final(self).done
                }
                &&& sc.j >= sc.hi ==> {
                    &&& final(nums)@ == old(nums)@.update(
                        sc.slot as int,
                        old(nums)@[sc.hi as int],
                    ).update(sc.hi as int, old(nums)@[sc.slot as int])
                    &&& final(self).scan is None
                    &&& final(self).stack@ == (if sc.slot >= 1 {
                        old(self).stack@.push(((sc.lo, (sc.slot - 1) as usize))).push(
                            (((sc.slot + 1) as usize, sc.hi)),
                        )
                    } else {
                        old(self).stack@.push((((sc.slot + 1) as usize, sc.hi)))
                    })
                    &&& !final(self).done
                }
            },
            (old(self).scan is None && old(self).stack@.len() > 0) ==> {
                &&& final(nums)@ == old(nums)@
                &&& final(self).stack@ == old(self).stack@.drop_last()
                &&& (old(self).stack@.last().0 < old(self).stack@.last().1 ==> final(self).scan
                    == Some(
                    ScanState {
                        lo: old(self).stack@.last().0,
                        hi: old(self).stack@.last().1,
                        pivot: vals(old(nums)@)[old(self).stack@.last().1 as int],
                        slot: old(self).stack@.last().0,
                        j: old(self).stack@.last().0,
                    },
                ))
                &&& (old(self).stack@.last().0 >= old(self).stack@.last().1 ==> final(self).scan
                    is None)
                &&& !final(self).done
            },
            (old(self).scan is None && old(self).stack@.len() == 0) ==> {
                &&& final(nums)@ == cleared(old(nums)@)
                &&& final(self).done
                &&& sorted(vals(final(nums)@))
                &&& highlights_off(final(nums)@)
            },
    {
        let scan = self.scan;
        match scan {
            Some(sc) => {
                if sc.j < sc.hi {
                    self.scan_step(nums);
                } else {
                    self.finish_step(nums);
                }
            },
            None => {
                if self.stack.len() > 0 {
                    self.pop_step(nums);
                } else {
                    let ghost pre = nums@;
                    nums.remove_all_highlights();
                    self.done = true;
                    proof {
                        assert(vals(nums@) =~= vals(pre));
                        assert(ranges_of(*self) =~= ranges_of(*old(self)));
                        lemma_quick_done_sorted(*self, nums@);
                    }
                }
            },
        }
    }

    /// One visible comparison of the active scan.
    fn scan_step(&mut self, nums: &mut NumberVec)
        requires
            quick_inv(*old(self), old(nums)@),
            !old(self).done,
            old(self).scan matches Some(sc) && sc.j < sc.hi,
        ensures
            quick_inv(*final(self), final(nums)@),
            final(nums)@.len() == old(nums)@.len(),
            vals(final(nums)@).to_multiset() == vals(old(nums)@).to_multiset(),
            final(nums)@ == quick_scan_result(old(nums)@, old(self).scan->Some_0),
            final(self).stack@ == old(self).stack@,
            final(self).scan == Some(
                ScanState {
                    slot: if vals(old(nums)@)[old(self).scan->Some_0.j as int] <= old(
                        self,
                    ).scan->Some_0.pivot {
                        (old(self).scan->Some_0.slot + 1) as usize
                    } else {
                        old(self).scan->Some_0.slot
                    },
                    j: (old(self).scan->Some_0.j + 1) as usize,
                    ..old(self).scan->Some_0
                },
            ),
            !final(self).done,
    {
        let sc = self.scan.unwrap();
        let ghost pre = nums@;
        let n = nums.len();
        assert(sc.hi < n);
        nums.remove_all_highlights();
        if sc.slot >= 1 {
            nums.add_highlight(sc.slot - 1, Highlight::Primary).unwrap();
        }
        nums.add_highlight(sc.j, Highlight::Secondary).unwrap();
        let ghost marked = nums@;
        proof {
            assert(vals(marked) =~= vals(pre));
        }
        let take_it = nums.values[sc.j].value <= sc.pivot;
        let mut new_sc = sc;
        if take_it {
            nums.swap(sc.slot, sc.j);
            new_sc.slot = sc.slot + 1;
        }
        new_sc.j = sc.j + 1;
        self.scan = Some(new_sc);
        proof {
            assert(vals(marked)[sc.j as int] == vals(pre)[sc.j as int]);
            assert(nums@ =~= quick_scan_result(pre, sc));
            lemma_scan_result_vals(pre, sc);
            assert(ranges_of(*self) =~= ranges_of(*old(self)));
            lemma_scan_step_spec(vals(pre), vals(nums@), sc, ranges_of(*old(self)));
        }
    }

    /// The active scan has looked at every position: place the pivot and
    /// queue the two sub-segments beside it.
    fn finish_step(&mut self, nums: &mut NumberVec)
        requires
            quick_inv(*old(self), old(nums)@),
            !old(self).done,
            old(self).scan matches Some(sc) && sc.j >= sc.hi,
        ensures
            quick_inv(*final(self), final(nums)@),
            final(nums)@.len() == old(nums)@.len(),
            vals(final(nums)@).to_multiset() == vals(old(nums)@).to_multiset(),
            final(nums)@ == old(nums)@.update(
                old(self).scan->Some_0.slot as int,
                old(nums)@[old(self).scan->Some_0.hi as int],
            ).update(
                old(self).scan->Some_0.hi as int,
                old(nums)@[old(self).scan->Some_0.slot as int],
            ),
            final(self).scan is None,
            final(self).stack@ == (if old(self).scan->Some_0.slot >= 1 {
                old(self).stack@.push(
                    ((old(self).scan->Some_0.lo, (old(self).scan->Some_0.slot - 1) as usize)),
                ).push((((old(self).scan->Some_0.slot + 1) as usize, old(self).scan->Some_0.hi)))
            } else {
                old(self).stack@.push(
                    (((old(self).scan->Some_0.slot + 1) as usize, old(self).scan->Some_0.hi)),
                )
            }),
            !final(self).done,
    {
        let sc = self.scan.unwrap();
        let ghost pre = nums@;
        let n = nums.len();
        assert(sc.hi < n);
        nums.swap(sc.slot, sc.hi);
        let p = sc.slot;
        self.scan = None;
        if p >= 1 {
            self.stack.push((sc.lo, p - 1));
        }
        self.stack.push((p + 1, sc.hi));
        proof {
            assert(ranges_of(*old(self)) =~= old(self).stack@.push((sc.lo, sc.hi)));
            assert(ranges_of(*self) =~= child_ranges(old(self).stack@, sc));
            lemma_vals_swap(pre, sc.slot as int, sc.hi as int);
            lemma_finish_step_spec(vals(pre), vals(nums@), sc, old(self).stack@);
        }
    }

    /// Takes up the next pending segment: a segment of more than one
    /// element becomes the active scan, a shorter one is already in place.
    fn pop_step(&mut self, nums: &NumberVec)
        requires
            quick_inv(*old(self), nums@),
            !old(self).done,
            old(self).scan is None,
            old(self).stack@.len() > 0,
        ensures
            quick_inv(*final(self), nums@),
            final(self).stack@ == old(self).stack@.drop_last(),
            old(self).stack@.last().0 < old(self).stack@.last().1 ==> final(self).scan == Some(
                ScanState {
                    lo: old(self).stack@.last().0,
                    hi: old(self).stack@.last().1,
                    pivot: vals(nums@)[old(self).stack@.last().1 as int],
                    slot: old(self).stack@.last().0,
                    j: old(self).stack@.last().0,
                },
            ),
            old(self).stack@.last().0 >= old(self).stack@.last().1 ==> final(self).scan is None,
            !final(self).done,
    {
        let r = self.stack.pop().unwrap();
        proof {
            assert(ranges_of(*old(self))[old(self).stack@.len() - 1] == r);
        }
        if r.0 < r.1 {
            let pivot_value = nums.values[r.1].value;
            self.scan = Some(ScanState { lo: r.0, hi: r.1, pivot: pivot_value, slot: r.0, j: r.0 });
            proof {
                assert(ranges_of(*self) =~= ranges_of(*old(self)));
            }
        } else {
            proof {
                let rs_old = ranges_of(*old(self));
                let rs_new = ranges_of(*self);
                assert(rs_new =~= rs_old.drop_last());
                // The removed segment held at most one position, so it
                // covered no pair.
                assert forall|a: int, b: int|
                    0 <= a < b < vals(nums@).len() && !covered(rs_new, a, b) implies #[trigger] vals(
                    nums@,
                )[a] <= #[trigger] vals(nums@)[b] by {
                    if covered(rs_old, a, b) {
                        let k = choose|k: int|
                            0 <= k < rs_old.len() && rng_has(#[trigger] rs_old[k], a) && rng_has(
                                rs_old[k],
                                b,
                            );
                        if k < rs_old.len() - 1 {
                            assert(rng_has(rs_new[k], a) && rng_has(rs_new[k], b));
                            assert(covered(rs_new, a, b));
                        }
                    }
                }
            }
        }
    }
}

} // verus!
