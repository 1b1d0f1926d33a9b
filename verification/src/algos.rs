//! The sorting algorithms that mutate a shared `NumberVec` in place:
//! quicksort with its Lomuto partition routine, bubble sort, and shuffle.
//!
//! The animated, step-paced forms of the two sorts live in `steps`; the
//! functions here run a whole sort under exclusive access, which is what a
//! caller that already owns the sequence (or holds its lock) uses.
use vstd::prelude::*;

use crate::datatypes::sorted;
use crate::datatypes::vals;
use crate::datatypes::Number;
use crate::datatypes::NumberVec;
use crate::datatypes::color_value;
use crate::datatypes::highlights_off;
use crate::lemmas::lemma_multiset_all;
use crate::lemmas::lemma_seg_multiset_combine;
use crate::lemmas::lemma_swap_seg_multiset;
use crate::lemmas::lemma_vals_swap;
use crate::lemmas::val_seg;
use crate::rng::fresh_rng;
use crate::steps::bubble_inv;
use crate::steps::BubbleRun;

verus! {

/// The number of ordered pairs a recursive sort of `lo..=hi` still has to
/// settle; zero when the range holds at most one element.
pub open spec fn span(lo: int, hi: int) -> int {
    if lo <= hi {
        hi - lo
    } else {
        0
    }
}

/// Lomuto partition over the segment `low_idx..=high_idx`: the value at
/// `high_idx` is the pivot; the scan moves every value not above the pivot
/// to the front of the segment, then places the pivot after them and
/// returns its final index. Every element left of the returned index is at
/// most the pivot, every element right of it is at least the pivot, and
/// the segment is permuted in place; nothing outside it moves.
pub fn qs_partition(nums: &mut NumberVec, low_idx: usize, high_idx: usize) -> (p: usize)
    requires
        low_idx <= high_idx,
        high_idx < old(nums)@.len(),
    ensures
        low_idx <= p <= high_idx,
        final(nums)@.len() == old(nums)@.len(),
        forall|k: int|
            0 <= k < old(nums)@.len() && !(low_idx <= k <= high_idx) ==> final(nums)@[k] == old(
                nums,
            )@[k],
        val_seg(final(nums)@, low_idx as int, high_idx as int).to_multiset() == val_seg(
            old(nums)@,
            low_idx as int,
            high_idx as int,
        ).to_multiset(),
        vals(final(nums)@)[p as int] == vals(old(nums)@)[high_idx as int],
        forall|k: int|
            low_idx <= k < p ==> #[trigger] vals(final(nums)@)[k] <= vals(final(nums)@)[p as int],
        forall|k: int|
            p < k <= high_idx ==> #[trigger] vals(final(nums)@)[k] >= vals(final(nums)@)[p as int],
{
    let ghost orig = nums@;
    let pivot_value = nums.values[high_idx].value;
    let mut slot: usize = low_idx;
    let mut j: usize = low_idx;
    while j < high_idx
        invariant
            low_idx <= slot <= j <= high_idx < nums@.len(),
            nums@.len() == orig.len(),
            pivot_value == vals(orig)[high_idx as int],
            vals(nums@)[high_idx as int] == pivot_value,
            forall|k: int|
                0 <= k < orig.len() && !(low_idx <= k <= high_idx) ==> nums@[k] == orig[k],
            val_seg(nums@, low_idx as int, high_idx as int).to_multiset() == val_seg(
                orig,
                low_idx as int,
                high_idx as int,
            ).to_multiset(),
            forall|k: int| low_idx <= k < slot ==> #[trigger] vals(nums@)[k] <= pivot_value,
            forall|k: int| slot <= k < j ==> #[trigger] vals(nums@)[k] > pivot_value,
        decreases high_idx - j,
    {
        if nums.values[j].value <= pivot_value {
            let ghost before = nums@;
            nums.swap(slot, j);
            proof {
                lemma_vals_swap(before, slot as int, j as int);
                lemma_swap_seg_multiset(
                    vals(before),
                    low_idx as int,
                    high_idx as int,
                    slot as int,
                    j as int,
                );
            }
            slot += 1;
        }
        j += 1;
    }
    let ghost before = nums@;
    nums.swap(slot, high_idx);
    proof {
        lemma_vals_swap(before, slot as int, high_idx as int);
        lemma_swap_seg_multiset(
            vals(before),
            low_idx as int,
            high_idx as int,
            slot as int,
            high_idx as int,
        );
    }
    slot
}

/// Composes a partition of `lo..=hi` at pivot index `p` with sorts of the
/// two sub-segments: the whole segment ends up sorted and permuted in
/// place. `orig` is the state before the partition, `m1` after it, `m2`
/// after the left sub-segment was sorted, `m3` after the right one was.
proof fn lemma_quicksort_glue(
    orig: Seq<Number>,
    m1: Seq<Number>,
    m2: Seq<Number>,
    m3: Seq<Number>,
    lo: int,
    hi: int,
    p: int,
)
    requires
        0 <= lo < hi < orig.len(),
        lo <= p <= hi,
        m1.len() == orig.len(),
        m2.len() == m1.len(),
        m3.len() == m2.len(),
        val_seg(m1, lo, hi).to_multiset() == val_seg(orig, lo, hi).to_multiset(),
        forall|k: int| 0 <= k < orig.len() && !(lo <= k <= hi) ==> m1[k] == orig[k],
        forall|k: int| lo <= k < p ==> #[trigger] vals(m1)[k] <= vals(m1)[p],
        forall|k: int| p < k <= hi ==> #[trigger] vals(m1)[k] >= vals(m1)[p],
        forall|k: int| 0 <= k < m1.len() && !(lo <= k <= p - 1) ==> m2[k] == m1[k],
        vals(m2).subrange(lo, p).to_multiset() == vals(m1).subrange(lo, p).to_multiset(),
        forall|a: int, b: int|
            lo <= a < b <= p - 1 ==> #[trigger] vals(m2)[a] <= #[trigger] vals(m2)[b],
        forall|k: int| 0 <= k < m2.len() && !(p + 1 <= k <= hi) ==> m3[k] == m2[k],
        vals(m3).subrange(p + 1, hi + 1).to_multiset() == vals(m2).subrange(
            p + 1,
            hi + 1,
        ).to_multiset(),
        forall|a: int, b: int|
            p + 1 <= a < b <= hi ==> #[trigger] vals(m3)[a] <= #[trigger] vals(m3)[b],
    ensures
        forall|k: int| 0 <= k < orig.len() && !(lo <= k <= hi) ==> m3[k] == orig[k],
        val_seg(m3, lo, hi).to_multiset() == val_seg(orig, lo, hi).to_multiset(),
        forall|a: int, b: int|
            lo <= a < b <= hi ==> #[trigger] vals(m3)[a] <= #[trigger] vals(m3)[b],
{
    let pivot = vals(m1)[p];
    // The left sort left `p..=hi` alone, the right sort left `lo..=p` alone.
    assert(vals(m2).subrange(p, hi + 1) =~= vals(m1).subrange(p, hi + 1));
    assert(vals(m3).subrange(lo, p + 1) =~= vals(m2).subrange(lo, p + 1));
    lemma_seg_multiset_combine(vals(m2), vals(m1), lo, p, hi);
    lemma_seg_multiset_combine(vals(m3), vals(m2), lo, p + 1, hi);
    assert(val_seg(m3, lo, hi).to_multiset() == val_seg(orig, lo, hi).to_multiset());
    // The pivot never moved again.
    assert(vals(m3)[p] == pivot);
    // Left of the pivot everything stayed at most the pivot: the left sort
    // permuted those values, the right sort did not touch them.
    let left1 = vals(m1).subrange(lo, p);
    let left2 = vals(m2).subrange(lo, p);
    assert forall|x: int| 0 <= x < left1.len() implies (|v: u8| v <= pivot)(
        #[trigger] left1[x],
    ) by {
        assert(left1[x] == vals(m1)[lo + x]);
    }
    lemma_multiset_all(left1, left2, |v: u8| v <= pivot);
    assert forall|k: int| lo <= k < p implies #[trigger] vals(m2)[k] <= pivot by {
        assert(left2[k - lo] == vals(m2)[k]);
        assert((|v: u8| v <= pivot)(left2[k - lo]));
    }
    assert forall|k: int| lo <= k < p implies #[trigger] vals(m3)[k] <= pivot by {
        assert(m3[k] == m2[k]);
        assert(vals(m3)[k] == m3[k].value);
        assert(vals(m2)[k] == m2[k].value);
    }
    // Right of the pivot everything stayed at least the pivot.
    let right2 = vals(m2).subrange(p + 1, hi + 1);
    let right3 = vals(m3).subrange(p + 1, hi + 1);
    assert forall|x: int| 0 <= x < right2.len() implies (|v: u8| v >= pivot)(
        #[trigger] right2[x],
    ) by {
        assert(right2[x] == vals(m2)[p + 1 + x]);
        assert(m2[p + 1 + x] == m1[p + 1 + x]);
        assert(vals(m2)[p + 1 + x] == m2[p + 1 + x].value);
        assert(vals(m1)[p + 1 + x] == m1[p + 1 + x].value);
    }
    lemma_multiset_all(right2, right3, |v: u8| v >= pivot);
    assert forall|k: int| p < k <= hi implies #[trigger] vals(m3)[k] >= pivot by {
        assert(right3[k - (p + 1)] == vals(m3)[k]);
        assert((|v: u8| v >= pivot)(right3[k - (p + 1)]));
    }
    // Sortedness of the left part survived the right sort untouched.
    assert forall|a: int, b: int| lo <= a < b <= p - 1 implies #[trigger] vals(m3)[a]
        <= #[trigger] vals(m3)[b] by {
        assert(m3[a] == m2[a]);
        assert(m3[b] == m2[b]);
        assert(vals(m3)[a] == m3[a].value);
        assert(vals(m3)[b] == m3[b].value);
        assert(vals(m2)[a] == m2[a].value);
        assert(vals(m2)[b] == m2[b].value);
    }
}

/// Recursive quicksort of the segment `low_idx..=high_idx`: sorts that
/// segment in place by value and touches nothing outside it. A segment of
/// at most one element is left exactly as it was.
pub fn quicksort(nums: &mut NumberVec, low_idx: usize, high_idx: usize)
    requires
        low_idx < high_idx ==> high_idx < old(nums)@.len(),
    ensures
        final(nums)@.len() == old(nums)@.len(),
        forall|k: int|
            0 <= k < old(nums)@.len() && !(low_idx <= k <= high_idx) ==> final(nums)@[k] == old(
                nums,
            )@[k],
        low_idx < high_idx ==> val_seg(final(nums)@, low_idx as int, high_idx as int).to_multiset()
            == val_seg(old(nums)@, low_idx as int, high_idx as int).to_multiset(),
        low_idx >= high_idx ==> final(nums)@ == old(nums)@,
        forall|a: int, b: int|
            low_idx <= a < b <= high_idx && b < final(nums)@.len() ==> #[trigger] vals(
                final(nums)@,
            )[a] <= #[trigger] vals(final(nums)@)[b],
        low_idx == 0 && high_idx + 1 == old(nums)@.len() ==> sorted(vals(final(nums)@))
            && vals(final(nums)@).to_multiset() == vals(old(nums)@).to_multiset(),
    decreases span(low_idx as int, high_idx as int),
{
    if low_idx >= high_idx {
        return;
    }
    let ghost orig = nums@;
    let p = qs_partition(nums, low_idx, high_idx);
    let n = nums.len();
    assert(p < n);  // so `p + 1` below cannot overflow
    let ghost m1 = nums@;
    if p == 0 {
        // The pivot landed at the very front: there is no left segment to
        // recurse into, and `low_idx` must be 0.
        quicksort(nums, low_idx, 0);
        let ghost m2 = nums@;
        quicksort(nums, p + 1, high_idx);
        proof {
            assert(m2 == m1);
            assert(vals(m2).subrange(low_idx as int, p as int) =~= vals(m1).subrange(
                low_idx as int,
                p as int,
            ));
            if p + 1 >= high_idx {
                assert(vals(nums@).subrange(p as int + 1, high_idx as int + 1) =~= vals(
                    m2,
                ).subrange(p as int + 1, high_idx as int + 1));
            }
            lemma_quicksort_glue(
                orig,
                m1,
                m2,
                nums@,
                low_idx as int,
                high_idx as int,
                p as int,
            );
        }
    } else {
        quicksort(nums, low_idx, p - 1);
        let ghost m2 = nums@;
        quicksort(nums, p + 1, high_idx);
        proof {
            if low_idx as int >= p as int - 1 {
                assert(m2 == m1);
                assert(vals(m2).subrange(low_idx as int, p as int) =~= vals(m1).subrange(
                    low_idx as int,
                    p as int,
                ));
            }
            if p + 1 >= high_idx {
                assert(vals(nums@).subrange(p as int + 1, high_idx as int + 1) =~= vals(
                    m2,
                ).subrange(p as int + 1, high_idx as int + 1));
            }
            lemma_quicksort_glue(
                orig,
                m1,
                m2,
                nums@,
                low_idx as int,
                high_idx as int,
                p as int,
            );
        }
    }
    proof {
        if low_idx == 0 && high_idx as int + 1 == old(nums)@.len() {
            assert(vals(nums@).subrange(0, nums@.len() as int) =~= vals(nums@));
            assert(vals(old(nums)@).subrange(0, old(nums)@.len() as int) =~= vals(old(nums)@));
        }
    }
}

/// Bubble sort run to completion under exclusive access: the classic
/// adjacent-pass algorithm, one `BubbleRun` step per comparison. Sorts the
/// sequence in place by value - the values are permuted, none is created
/// or lost - and leaves every highlight off.
pub fn bubblesort(nums: &mut NumberVec)
    ensures
        final(nums)@.len() == old(nums)@.len(),
        sorted(vals(final(nums)@)),
        vals(final(nums)@).to_multiset() == vals(old(nums)@).to_multiset(),
        highlights_off(final(nums)@),
{
    let mut run = BubbleRun::new(nums);
    while !run.is_done()
        invariant
            bubble_inv(run, nums@),
            nums@.len() == old(nums)@.len(),
            vals(nums@).to_multiset() == vals(old(nums)@).to_multiset(),
        decreases
                (if run.done {
                    0int
                } else {
                    nums@.len() - run.pass
                }),
                (if run.done {
                    0int
                } else {
                    nums@.len() - 1 - run.pass - run.i
                }),
    {
        run.step(nums);
    }
    let ghost before_clear = nums@;
    nums.remove_all_highlights();
    proof {
        assert(vals(nums@) =~= vals(before_clear));
    }
}

/// Randomly permutes the whole sequence, recolors every element by its new
/// position and clears all highlights, in one go: shuffling is not an
/// animated, steppable algorithm, so there is no pacing and no
/// cancellation check.
pub fn shuffle(nums: &mut NumberVec)
    ensures
        final(nums)@.len() == old(nums)@.len(),
        vals(final(nums)@).to_multiset() == vals(old(nums)@).to_multiset(),
        highlights_off(final(nums)@),
        forall|k: int|
            0 <= k < final(nums)@.len() ==> #[trigger] final(nums)@[k].color == color_value(
                (k % 256) as u8,
            ),
{
    let mut rng = fresh_rng();
    nums.shuffle(&mut rng);
}

} // verus!
