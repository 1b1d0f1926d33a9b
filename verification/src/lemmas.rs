//! Proof support shared by the sorting algorithms: swapping two elements
//! of a sequence permutes it, permutations preserve element-wise bounds,
//! and segment multisets compose.
use vstd::prelude::*;

use vstd::multiset::group_multiset_axioms;
use vstd::seq_lib::group_to_multiset_ensures;
use vstd::seq_lib::lemma_multiset_commutative;

use crate::datatypes::vals;
use crate::datatypes::Number;

verus! {

/// The segment of the value sequence from `lo` through `hi`, inclusive.
pub open spec fn val_seg(s: Seq<Number>, lo: int, hi: int) -> Seq<u8> {
    vals(s).subrange(lo, hi + 1)
}

/// Swapping two positions of a sequence of numbers swaps the same two
/// positions of its value sequence.
pub proof fn lemma_vals_swap(s: Seq<Number>, i: int, j: int)
    requires
        0 <= i < s.len(),
        0 <= j < s.len(),
    ensures
        vals(s.update(i, s[j]).update(j, s[i])) == vals(s).update(i, vals(s)[j]).update(
            j,
            vals(s)[i],
        ),
{
    assert(vals(s.update(i, s[j]).update(j, s[i])) =~= vals(s).update(i, vals(s)[j]).update(
        j,
        vals(s)[i],
    ));
}

/// Swapping two positions inside the segment `lo..=hi` preserves the
/// multiset of that segment (and of every enclosing segment of the same
/// sequence, stated here for the segment itself).
pub proof fn lemma_swap_seg_multiset(v: Seq<u8>, lo: int, hi: int, i: int, j: int)
    requires
        0 <= lo <= i <= hi < v.len(),
        lo <= j <= hi,
    ensures
        v.update(i, v[j]).update(j, v[i]).subrange(lo, hi + 1).to_multiset() == v.subrange(
            lo,
            hi + 1,
        ).to_multiset(),
{
    broadcast use group_to_multiset_ensures;
    broadcast use group_multiset_axioms;

    let t = v.update(i, v[j]).update(j, v[i]);
    let sub = v.subrange(lo, hi + 1);
    if i == j {
        assert(t.subrange(lo, hi + 1) =~= sub);
    } else {
        let i0 = i - lo;
        let j0 = j - lo;
        let u1 = sub.update(i0, sub[j0]);
        let u2 = u1.update(j0, sub[i0]);
        assert(t.subrange(lo, hi + 1) =~= u2);
        assert(u1.to_multiset() == sub.to_multiset().insert(sub[j0]).remove(sub[i0]));
        assert(u1[j0] == sub[j0]);
        assert(u2.to_multiset() == u1.to_multiset().insert(sub[i0]).remove(sub[j0]));
        assert(sub.to_multiset().contains(sub[i0]));
        assert(sub.to_multiset().contains(sub[j0]));
        assert(u2.to_multiset() =~= sub.to_multiset());
    }
}

/// If two value sequences hold the same multiset and every element of the
/// first satisfies `f`, every element of the second satisfies `f` too.
pub proof fn lemma_multiset_all(a: Seq<u8>, b: Seq<u8>, f: spec_fn(u8) -> bool)
    requires
        a.to_multiset() == b.to_multiset(),
        forall|k: int| 0 <= k < a.len() ==> f(#[trigger] a[k]),
    ensures
        forall|k: int| 0 <= k < b.len() ==> f(#[trigger] b[k]),
{
    broadcast use group_to_multiset_ensures;
    broadcast use group_multiset_axioms;

    assert forall|k: int| 0 <= k < b.len() implies f(#[trigger] b[k]) by {
        assert(b.contains(b[k]));
        assert(a.to_multiset().count(b[k]) > 0);
        assert(a.contains(b[k]));
        let m = choose|m: int| 0 <= m < a.len() && a[m] == b[k];
        assert(f(a[m]));
    }
}

/// Two sequences whose segments `lo..mid` and `mid..=hi` each hold equal
/// multisets hold equal multisets over the whole segment `lo..=hi`.
pub proof fn lemma_seg_multiset_combine(a: Seq<u8>, b: Seq<u8>, lo: int, mid: int, hi: int)
    requires
        a.len() == b.len(),
        0 <= lo <= mid <= hi + 1 <= a.len(),
        a.subrange(lo, mid).to_multiset() == b.subrange(lo, mid).to_multiset(),
        a.subrange(mid, hi + 1).to_multiset() == b.subrange(mid, hi + 1).to_multiset(),
    ensures
        a.subrange(lo, hi + 1).to_multiset() == b.subrange(lo, hi + 1).to_multiset(),
{
    broadcast use group_multiset_axioms;

    assert(a.subrange(lo, hi + 1) =~= a.subrange(lo, mid) + a.subrange(mid, hi + 1));
    assert(b.subrange(lo, hi + 1) =~= b.subrange(lo, mid) + b.subrange(mid, hi + 1));
    lemma_multiset_commutative(a.subrange(lo, mid), a.subrange(mid, hi + 1));
    lemma_multiset_commutative(b.subrange(lo, mid), b.subrange(mid, hi + 1));
    assert(a.subrange(lo, hi + 1).to_multiset() =~= b.subrange(lo, hi + 1).to_multiset());
}

} // verus!
