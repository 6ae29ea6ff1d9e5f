//! Partial selector: rearranges a buffer in place so that the `k` largest
//! values occupy the tail and the `k` smallest the head, without fully
//! ordering the middle.  Cost is `O(n * k)` with no allocation; ties are
//! broken arbitrarily, which downstream consumers tolerate because they only
//! sum the remaining set.

use vstd::prelude::*;
use vstd::seq_lib::to_multiset_update;
use vstd::seq_lib::lemma_sorted_unique;
use vstd::seq_lib::lemma_multiset_commutative;
use vstd::relations::sorted_by;
use vstd::relations::total_ordering;

verus! {

/// Whether `s` is ascending under `<=`.
pub open spec fn sorted_u64(s: Seq<u64>) -> bool {
    sorted_by(s, |x: u64, y: u64| x <= y)
}

/// The ascending rearrangement of `s`.
pub open spec fn sort_u64(s: Seq<u64>) -> Seq<u64> {
    s.sort_by(|x: u64, y: u64| x <= y)
}

/// `<=` on `u64` is a total order.
pub proof fn lemma_u64_leq_total_ordering()
    ensures
        total_ordering(|x: u64, y: u64| x <= y),
{
    let leq = |x: u64, y: u64| x <= y;
    assert forall|x: u64| #[trigger] leq(x, x) by {}
}

/// What [`sort_u64`] produces: an ascending permutation of its input.
pub proof fn lemma_sort_u64_ensures(s: Seq<u64>)
    ensures
        sort_u64(s).len() == s.len(),
        sort_u64(s).to_multiset() == s.to_multiset(),
        sorted_u64(sort_u64(s)),
{
    let leq = |x: u64, y: u64| x <= y;
    lemma_u64_leq_total_ordering();
    s.lemma_sort_by_ensures(leq);
    broadcast use vstd::seq_lib::group_to_multiset_ensures;

    assert(s.to_multiset().len() == s.len());
    assert(sort_u64(s).to_multiset().len() == sort_u64(s).len());
}

/// A sorted permutation is unique, so anything ascending with the same
/// contents as `s` is exactly [`sort_u64`]`(s)`.
pub proof fn lemma_sorted_permutation_is_sort(s: Seq<u64>, t: Seq<u64>)
    requires
        sorted_u64(t),
        t.to_multiset() == s.to_multiset(),
    ensures
        t == sort_u64(s),
{
    let leq = |x: u64, y: u64| x <= y;
    lemma_u64_leq_total_ordering();
    lemma_sort_u64_ensures(s);
    lemma_sorted_unique(t, sort_u64(s), leq);
}

/// Exchanges the samples at positions `a` and `b`.
pub fn swap(v: &mut Vec<u64>, a: usize, b: usize)
    requires
        a < old(v).len(),
        b < old(v).len(),
    ensures
        final(v)@ == old(v)@.update(a as int, old(v)@[b as int]).update(
            b as int,
            old(v)@[a as int],
        ),
        final(v)@.to_multiset() == old(v)@.to_multiset(),
{
    proof {
        lemma_swap_preserves_multiset(v@, a as int, b as int);
    }
    let x = v[a];
    let y = v[b];
    v[a] = y;
    v[b] = x;
}

/// Law: exchanging two positions keeps the contents of the buffer.
pub proof fn lemma_swap_preserves_multiset(s: Seq<u64>, a: int, b: int)
    requires
        0 <= a < s.len(),
        0 <= b < s.len(),
    ensures
        s.update(a, s[b]).update(b, s[a]).to_multiset() == s.to_multiset(),
{
    broadcast use to_multiset_update;
    broadcast use vstd::multiset::group_multiset_axioms;
    broadcast use vstd::seq_lib::group_to_multiset_ensures;

    let s1 = s.update(a, s[b]);
    assert(s1.to_multiset() == s.to_multiset().insert(s[b]).remove(s[a]));
    assert(s1.update(b, s[a]).to_multiset() == s1.to_multiset().insert(s[a]).remove(s1[b]));
    assert(s.to_multiset().contains(s[a]));
    assert(s.update(a, s[b]).update(b, s[a]).to_multiset() =~= s.to_multiset());
}

/// Two buffers with the same contents have the same element bounds.
pub proof fn lemma_multiset_elems_bounded(x: Seq<u64>, y: Seq<u64>, bound: int)
    requires
        x.to_multiset() == y.to_multiset(),
        forall|i: int| 0 <= i < x.len() ==> x[i] < bound,
    ensures
        forall|i: int| 0 <= i < y.len() ==> y[i] < bound,
{
    broadcast use vstd::seq_lib::group_to_multiset_ensures;

    assert forall|i: int| 0 <= i < y.len() implies y[i] < bound by {
        assert(y.contains(y[i]));
        assert(x.to_multiset().count(y[i]) > 0);
        assert(x.contains(y[i]));
        let j = choose|j: int| 0 <= j < x.len() && x[j] == y[i];
        assert(x[j] < bound);
    }
}

/// Law: a permutation whose head is dominated by, and whose tail dominates,
/// everything else sorts blockwise.  Its ascending rearrangement is the
/// concatenation of the ascending rearrangements of head, middle and tail,
/// so the head holds exactly the `k` smallest and the tail exactly the `k`
/// largest values of the original buffer.
pub proof fn lemma_partition_blocks(s: Seq<u64>, t: Seq<u64>, k: int)
    requires
        0 <= k,
        2 * k <= t.len(),
        t.to_multiset() == s.to_multiset(),
        forall|i: int, j: int|
            0 <= i < t.len() - k && t.len() - k <= j < t.len() ==> t[i] <= t[j],
        forall|i: int, j: int| 0 <= i < k && k <= j < t.len() - k ==> t[i] <= t[j],
    ensures
        s.len() == t.len(),
        sort_u64(s) == sort_u64(t.subrange(0, k)) + sort_u64(
            t.subrange(k, t.len() - k),
        ) + sort_u64(t.subrange(t.len() - k, t.len() as int)),
{
    broadcast use vstd::seq_lib::group_to_multiset_ensures;
    broadcast use vstd::multiset::group_multiset_axioms;

    let n = t.len() as int;
    let a = t.subrange(0, k);
    let b = t.subrange(k, n - k);
    let c = t.subrange(n - k, n);
    let sa = sort_u64(a);
    let sb = sort_u64(b);
    let sc = sort_u64(c);
    lemma_sort_u64_ensures(a);
    lemma_sort_u64_ensures(b);
    lemma_sort_u64_ensures(c);
    assert(t.to_multiset().len() == t.len());
    assert(s.to_multiset().len() == s.len());
    let u = sa + sb + sc;
    assert(t =~= a + b + c);
    lemma_multiset_commutative(a, b);
    lemma_multiset_commutative(a + b, c);
    lemma_multiset_commutative(sa, sb);
    lemma_multiset_commutative(sa + sb, sc);
    assert(u.to_multiset() == t.to_multiset()) by {
        assert((a + b).to_multiset() == (sa + sb).to_multiset());
        assert(((a + b) + c).to_multiset() == ((sa + sb) + sc).to_multiset());
        assert(u =~= (sa + sb) + sc);
    }
    // Each element of a rearranged block came out of that block of `t`.
    assert forall|p: int, q: int| 0 <= p < q < u.len() implies u[p] <= u[q] by {
        lemma_block_element_origin(t, a, sa, u, p, 0, k);
        lemma_block_element_origin(t, b, sb, u, p, k, n - k);
        lemma_block_element_origin(t, c, sc, u, p, n - k, n);
        lemma_block_element_origin(t, a, sa, u, q, 0, k);
        lemma_block_element_origin(t, b, sb, u, q, k, n - k);
        lemma_block_element_origin(t, c, sc, u, q, n - k, n);
        let leq = |x: u64, y: u64| x <= y;
        if q < k {
            assert(sorted_by(sa, leq));
            assert(u[p] == sa[p] && u[q] == sa[q]);
            assert(leq(sa[p], sa[q]));
        } else if k <= p && q < n - k {
            assert(sorted_by(sb, leq));
            assert(u[p] == sb[p - k] && u[q] == sb[q - k]);
            assert(leq(sb[p - k], sb[q - k]));
        } else if n - k <= p {
            assert(sorted_by(sc, leq));
            assert(u[p] == sc[p - (n - k)] && u[q] == sc[q - (n - k)]);
            assert(leq(sc[p - (n - k)], sc[q - (n - k)]));
        } else if p < k && k <= q < n - k {
            let i0 = choose|i0: int| 0 <= i0 < k && t[i0] == u[p];
            let j0 = choose|j0: int| k <= j0 < n - k && t[j0] == u[q];
            assert(t[i0] <= t[j0]);
        } else if p < k && n - k <= q {
            let i0 = choose|i0: int| 0 <= i0 < k && t[i0] == u[p];
            let j0 = choose|j0: int| n - k <= j0 < n && t[j0] == u[q];
            assert(t[i0] <= t[j0]);
        } else {
            assert(k <= p < n - k && n - k <= q);
            let i0 = choose|i0: int| k <= i0 < n - k && t[i0] == u[p];
            let j0 = choose|j0: int| n - k <= j0 < n && t[j0] == u[q];
            assert(t[i0] <= t[j0]);
        }
    }
    assert(sorted_u64(u));
    lemma_sorted_permutation_is_sort(s, u);
}

/// Helper for [`lemma_partition_blocks`]: position `p` of the blockwise
/// rearrangement `u` holds a value that `t` holds somewhere in the block
/// `[lo, hi)`, provided `p` falls in that block.
proof fn lemma_block_element_origin(
    t: Seq<u64>,
    block: Seq<u64>,
    sorted_block: Seq<u64>,
    u: Seq<u64>,
    p: int,
    lo: int,
    hi: int,
)
    requires
        0 <= lo <= hi <= t.len(),
        block == t.subrange(lo, hi),
        sorted_block.to_multiset() == block.to_multiset(),
        sorted_block.len() == block.len(),
        0 <= p < u.len(),
        lo <= p < hi ==> u[p] == sorted_block[p - lo],
    ensures
        lo <= p < hi ==> exists|i0: int| lo <= i0 < hi && t[i0] == u[p],
{
    broadcast use vstd::seq_lib::group_to_multiset_ensures;

    if lo <= p < hi {
        assert(sorted_block.contains(u[p])) by {
            assert(sorted_block[p - lo] == u[p]);
        }
        assert(block.to_multiset().count(u[p]) > 0);
        assert(block.contains(u[p]));
        let j = choose|j: int| 0 <= j < block.len() && block[j] == u[p];
        assert(t[lo + j] == u[p]);
    }
}

/// Sorts the buffer ascending: afterwards it is exactly the ascending
/// rearrangement of what it held before.
pub fn sort_values(v: &mut Vec<u64>)
    ensures
        final(v)@ == sort_u64(old(v)@),
{
    let n = v.len();
    let mut r: usize = 0;
    while r < n
        invariant
            r <= n,
            n == v.len(),
            v@.to_multiset() == old(v)@.to_multiset(),
            forall|i: int, j: int| 0 <= i < r && i < j < n ==> v@[i] <= v@[j],
        decreases n - r,
    {
        let mut idx: usize = r;
        let mut j: usize = r + 1;
        while j < n
            invariant
                r < j <= n,
                r <= idx < j,
                n == v.len(),
                forall|t: int| r <= t < j ==> v@[idx as int] <= v@[t],
            decreases n - j,
        {
            if v[j] < v[idx] {
                idx = j;
            }
            j = j + 1;
        }
        swap(v, r, idx);
        r = r + 1;
    }
    proof {
        assert(sorted_u64(v@));
        lemma_sorted_permutation_is_sort(old(v)@, v@);
    }
}

/// Law: a buffer partitioned the way [`select`] leaves it holds, in its
/// last `k` positions, exactly the `k` largest values of the original
/// contents as a multiset, in its first `k` positions exactly the `k`
/// smallest, and in between exactly the rest — the corresponding slices of
/// the ascending rearrangement.
pub proof fn lemma_select_isolates_extremes(s: Seq<u64>, t: Seq<u64>, k: int)
    requires
        0 <= k,
        2 * k <= t.len(),
        t.to_multiset() == s.to_multiset(),
        forall|i: int, j: int|
            0 <= i < t.len() - k && t.len() - k <= j < t.len() ==> t[i] <= t[j],
        forall|i: int, j: int| 0 <= i < k && k <= j < t.len() - k ==> t[i] <= t[j],
    ensures
        s.len() == t.len(),
        t.subrange(0, k).to_multiset() == sort_u64(s).subrange(0, k).to_multiset(),
        t.subrange(k, t.len() - k).to_multiset() == sort_u64(s).subrange(
            k,
            t.len() - k,
        ).to_multiset(),
        t.subrange(t.len() - k, t.len() as int).to_multiset() == sort_u64(s).subrange(
            t.len() - k,
            t.len() as int,
        ).to_multiset(),
{
    lemma_partition_blocks(s, t, k);
    let n = t.len() as int;
    let a = t.subrange(0, k);
    let b = t.subrange(k, n - k);
    let c = t.subrange(n - k, n);
    lemma_sort_u64_ensures(a);
    lemma_sort_u64_ensures(b);
    lemma_sort_u64_ensures(c);
    assert(sort_u64(s).subrange(0, k) =~= sort_u64(a));
    assert(sort_u64(s).subrange(k, n - k) =~= sort_u64(b));
    assert(sort_u64(s).subrange(n - k, n) =~= sort_u64(c));
}

/// Moves the `k` largest values of `v` to its tail and the `k` smallest to
/// its head, leaving the middle unordered.  After the call the head is
/// dominated by, and the tail dominates, everything else, and the buffer
/// holds the same samples it did before.
pub fn select(v: &mut Vec<u64>, k: usize)
    requires
        2 * k <= old(v).len(),
    ensures
        final(v).len() == old(v).len(),
        final(v)@.to_multiset() == old(v)@.to_multiset(),
        forall|i: int, j: int|
            0 <= i < old(v).len() - k && old(v).len() - k <= j < old(v).len()
                ==> final(v)@[i] <= final(v)@[j],
        forall|i: int, j: int|
            0 <= i < k && k <= j < old(v).len() - k ==> final(v)@[i] <= final(v)@[j],
{
    let n = v.len();
    // Selection sweep for the maxima: k rounds, each moving the largest
    // unplaced value to its tail slot.
    let mut r: usize = 0;
    while r < k
        invariant
            r <= k,
            2 * k <= n,
            n == v.len(),
            v@.to_multiset() == old(v)@.to_multiset(),
            forall|i: int, j: int|
                0 <= i < n - r && n - r <= j < n ==> v@[i] <= v@[j],
        decreases k - r,
    {
        let m = n - r;
        let mut idx: usize = 0;
        let mut j: usize = 1;
        while j < m
            invariant
                1 <= j <= m,
                idx < j,
                m <= n == v.len(),
                forall|t: int| 0 <= t < j ==> v@[t] <= v@[idx as int],
            decreases m - j,
        {
            if v[j] > v[idx] {
                idx = j;
            }
            j = j + 1;
        }
        swap(v, idx, m - 1);
        r = r + 1;
    }
    // Selection sweep for the minima over the untouched prefix: k rounds,
    // each moving the smallest unplaced value to its head slot.
    let mut r: usize = 0;
    while r < k
        invariant
            r <= k,
            2 * k <= n,
            n == v.len(),
            v@.to_multiset() == old(v)@.to_multiset(),
            forall|i: int, j: int|
                0 <= i < n - k && n - k <= j < n ==> v@[i] <= v@[j],
            forall|i: int, j: int| 0 <= i < r && i < j < n - k ==> v@[i] <= v@[j],
        decreases k - r,
    {
        let mut idx: usize = r;
        let mut j: usize = r + 1;
        while j < n - k
            invariant
                r < j <= n - k,
                r <= idx < j,
                2 * k <= n,
                r < k,
                n == v.len(),
                forall|t: int| r <= t < j ==> v@[idx as int] <= v@[t],
            decreases n - k - j,
        {
            if v[j] < v[idx] {
                idx = j;
            }
            j = j + 1;
        }
        swap(v, r, idx);
        r = r + 1;
    }
}

} // verus!
