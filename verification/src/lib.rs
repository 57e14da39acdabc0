//! Comparison-based in-memory sorting over `u64` keys: bubble sort and merge
//! sort as sequential references, and randomized quicksort in sequential and
//! work-stealing fork-join variants, all built on an in-place randomized
//! partition primitive driven by a seeded linear-congruential generator.

use vstd::prelude::*;

pub mod b_rand;

verus! {

use crate::b_rand::{RandGen, DEFAULT_SEED, MODULUS};

broadcast use
    vstd::seq_lib::group_to_multiset_ensures,
    vstd::seq_lib::to_multiset_update,
    vstd::multiset::group_multiset_axioms,
;

/// The elements of `s` between `lo` (inclusive) and `hi` (exclusive) are in
/// non-decreasing order.
pub open spec fn sorted_range(s: Seq<u64>, lo: int, hi: int) -> bool {
    forall|i: int, j: int| lo <= i <= j < hi ==> s[i] <= s[j]
}

/// The whole sequence is in non-decreasing order.
pub open spec fn sorted(s: Seq<u64>) -> bool {
    sorted_range(s, 0, s.len() as int)
}

/// A sorted sequence is the only sorted arrangement of its elements: any
/// two sorted sequences holding the same multiset of elements are equal.
/// In particular every sort in this crate — each returns a sorted
/// permutation of its input — is idempotent: applied to an already-sorted
/// sequence it yields the identical sequence.
pub proof fn lemma_sorted_permutation_is_identity(s: Seq<u64>, t: Seq<u64>)
    requires
        sorted(s),
        sorted(t),
        s.to_multiset() == t.to_multiset(),
    ensures
        s == t,
    decreases s.len(),
{
    s.to_multiset_ensures();
    t.to_multiset_ensures();
    if s.len() == 0 {
        assert(s =~= t);
    } else {
        assert(t.len() == s.len());
        lemma_multiset_same_members(s, t);
        assert(s.contains(s[0]));
        assert(t.contains(t[0]));
        assert(t.contains(s[0]));
        assert(s.contains(t[0]));
        let m = choose|m: int| 0 <= m < t.len() && t[m] == s[0];
        let m2 = choose|m2: int| 0 <= m2 < s.len() && s[m2] == t[0];
        assert(t[0] <= t[m]);
        assert(s[0] <= s[m2]);
        assert(s[0] == t[0]);
        let st = s.subrange(1, s.len() as int);
        let tt = t.subrange(1, t.len() as int);
        assert(s.remove(0) =~= st);
        assert(t.remove(0) =~= tt);
        assert(s.remove(0).to_multiset() =~= s.to_multiset().remove(s[0]));
        assert(t.remove(0).to_multiset() =~= t.to_multiset().remove(t[0]));
        assert(st.to_multiset() == tt.to_multiset());
        lemma_sorted_permutation_is_identity(st, tt);
        assert forall|k: int| 0 <= k < s.len() implies s[k] == t[k] by {
            if k > 0 {
                assert(st[k - 1] == s[k]);
                assert(tt[k - 1] == t[k]);
            }
        }
        assert(s =~= t);
    }
}

/// Exchanging two positions of a sequence leaves its multiset of elements
/// unchanged.
proof fn lemma_swap_multiset(s: Seq<u64>, i: int, j: int)
    requires
        0 <= i < s.len(),
        0 <= j < s.len(),
    ensures
        s.update(i, s[j]).update(j, s[i]).to_multiset() == s.to_multiset(),
{
    let s1 = s.update(i, s[j]);
    let s2 = s1.update(j, s[i]);
    if i == j {
        assert(s2 =~= s);
    } else {
        assert(s.contains(s[i]));
        assert(s.contains(s[j]));
        assert(s1[j] == s[j]);
        assert(s1.contains(s1[i]));
        assert(s2.to_multiset() =~= s.to_multiset());
    }
}

/// Two sequences with the same multiset of elements contain the same values.
proof fn lemma_multiset_same_members(s: Seq<u64>, t: Seq<u64>)
    requires
        s.to_multiset() == t.to_multiset(),
    ensures
        forall|x: u64| s.contains(x) <==> t.contains(x),
{
    assert forall|x: u64| s.contains(x) <==> t.contains(x) by {
        s.to_multiset_ensures();
        t.to_multiset_ensures();
        assert(s.contains(x) <==> s.to_multiset().count(x) > 0);
        assert(t.contains(x) <==> t.to_multiset().count(x) > 0);
        assert(s.to_multiset().count(x) == t.to_multiset().count(x));
    }
}

/// If two sequences of equal length agree outside `[lo, hi)` and have the
/// same multiset of elements overall, their `[lo, hi)` ranges also hold the
/// same multiset of elements.
proof fn lemma_frame_multiset(s: Seq<u64>, t: Seq<u64>, lo: int, hi: int)
    requires
        s.len() == t.len(),
        0 <= lo <= hi <= s.len(),
        forall|k: int| 0 <= k < lo || hi <= k < s.len() ==> s[k] == t[k],
        s.to_multiset() == t.to_multiset(),
    ensures
        s.subrange(lo, hi).to_multiset() == t.subrange(lo, hi).to_multiset(),
{
    let pre = s.subrange(0, lo);
    let mid_s = s.subrange(lo, hi);
    let mid_t = t.subrange(lo, hi);
    let post = s.subrange(hi, s.len() as int);
    assert(s =~= pre + mid_s + post);
    assert(t =~= pre + mid_t + post);
    vstd::seq_lib::lemma_multiset_commutative(pre + mid_s, post);
    vstd::seq_lib::lemma_multiset_commutative(pre + mid_t, post);
    vstd::seq_lib::lemma_multiset_commutative(pre, mid_s);
    vstd::seq_lib::lemma_multiset_commutative(pre, mid_t);
    let whole_s = pre.to_multiset().add(mid_s.to_multiset()).add(post.to_multiset());
    let whole_t = pre.to_multiset().add(mid_t.to_multiset()).add(post.to_multiset());
    assert(s.to_multiset() == whole_s);
    assert(t.to_multiset() == whole_t);
    assert forall|x: u64| mid_s.to_multiset().count(x) == mid_t.to_multiset().count(x) by {
        assert(whole_s.count(x) == pre.to_multiset().count(x) + mid_s.to_multiset().count(x)
            + post.to_multiset().count(x));
        assert(whole_t.count(x) == pre.to_multiset().count(x) + mid_t.to_multiset().count(x)
            + post.to_multiset().count(x));
    }
    assert(mid_s.to_multiset() =~= mid_t.to_multiset());
}

/// Exchanges the elements at positions `i` and `j`.
fn swap_in(v: &mut Vec<u64>, i: usize, j: usize)
    requires
        i < old(v).len(),
        j < old(v).len(),
    ensures
        final(v)@ == old(v)@.update(i as int, old(v)@[j as int]).update(
            j as int,
            old(v)@[i as int],
        ),
        final(v)@.to_multiset() == old(v)@.to_multiset(),
        final(v)@.len() == old(v)@.len(),
{
    let xi = v[i];
    let xj = v[j];
    v[i] = xj;
    v[j] = xi;
    proof {
        lemma_swap_multiset(old(v)@, i as int, j as int);
    }
}

/// Bubble sort: repeated adjacent-swap passes over the vector, sorting it
/// in place into non-decreasing order while leaving its multiset of
/// elements unchanged. A pass that makes no swap ends the sort early.
pub fn bubble_sort(v: &mut Vec<u64>)
    ensures
        final(v)@.len() == old(v)@.len(),
        final(v)@.to_multiset() == old(v)@.to_multiset(),
        sorted(final(v)@),
        sorted(old(v)@) ==> final(v)@ == old(v)@,
{
    let n = v.len();
    if n <= 1 {
        return;
    }
    let mut i: usize = 0;
    while i < n - 1
        invariant
            1 < n == v@.len() == old(v)@.len(),
            i < n,
            v@.to_multiset() == old(v)@.to_multiset(),
            sorted_range(v@, n - i, n as int),
            forall|a: int, b: int| 0 <= a < n - i <= b < n ==> v@[a] <= v@[b],
        decreases n - i,
    {
        let mut swapped = false;
        let mut j: usize = 0;
        while j < n - i - 1
            invariant
                1 < n == v@.len() == old(v)@.len(),
                i < n - 1,
                j <= n - i - 1,
                v@.to_multiset() == old(v)@.to_multiset(),
                sorted_range(v@, n - i, n as int),
                forall|a: int, b: int| 0 <= a < n - i <= b < n ==> v@[a] <= v@[b],
                forall|a: int| 0 <= a <= j ==> v@[a] <= v@[j as int],
                !swapped ==> sorted_range(v@, 0, j + 1),
            decreases n - i - j,
        {
            if v[j] > v[j + 1] {
                swap_in(v, j, j + 1);
                swapped = true;
            }
            j = j + 1;
        }
        if !swapped {
            proof {
                if sorted(old(v)@) {
                    lemma_sorted_permutation_is_identity(v@, old(v)@);
                }
            }
            return;
        }
        i = i + 1;
    }
    proof {
        if sorted(old(v)@) {
            lemma_sorted_permutation_is_identity(v@, old(v)@);
        }
    }
}

/// Merges two sorted vectors into one sorted vector by repeatedly taking
/// the smaller head; on equal heads the element of `a` is taken first, so
/// elements of `a` precede equal elements of `b` in the result.
fn merge(a: Vec<u64>, b: Vec<u64>) -> (r: Vec<u64>)
    requires
        sorted(a@),
        sorted(b@),
        a@.len() + b@.len() <= usize::MAX,
    ensures
        r@.len() == a@.len() + b@.len(),
        r@.to_multiset() == a@.to_multiset().add(b@.to_multiset()),
        sorted(r@),
{
    let mut res: Vec<u64> = Vec::with_capacity(a.len() + b.len());
    let mut ai: usize = 0;
    let mut bi: usize = 0;
    while ai < a.len() || bi < b.len()
        invariant
            sorted(a@),
            sorted(b@),
            ai <= a@.len(),
            bi <= b@.len(),
            res@.len() == ai + bi,
            sorted(res@),
            res@.to_multiset() == a@.subrange(0, ai as int).to_multiset().add(
                b@.subrange(0, bi as int).to_multiset(),
            ),
            ai < a@.len() && res@.len() > 0 ==> res@.last() <= a@[ai as int],
            bi < b@.len() && res@.len() > 0 ==> res@.last() <= b@[bi as int],
        decreases a@.len() - ai + b@.len() - bi,
    {
        let ghost ra = a@.subrange(0, ai as int);
        let ghost rb = b@.subrange(0, bi as int);
        let ghost r0 = res@;
        if ai < a.len() && (bi >= b.len() || !(b[bi] < a[ai])) {
            let x = a[ai];
            res.push(x);
            ai = ai + 1;
            proof {
                assert(a@.subrange(0, ai as int) =~= ra.push(x));
                assert(ra.push(x).to_multiset() =~= ra.to_multiset().insert(x));
                assert(r0.push(x).to_multiset() =~= r0.to_multiset().insert(x));
                assert(res@.to_multiset() =~= a@.subrange(0, ai as int).to_multiset().add(
                    b@.subrange(0, bi as int).to_multiset(),
                ));
            }
        } else {
            let x = b[bi];
            res.push(x);
            bi = bi + 1;
            proof {
                assert(b@.subrange(0, bi as int) =~= rb.push(x));
                assert(rb.push(x).to_multiset() =~= rb.to_multiset().insert(x));
                assert(r0.push(x).to_multiset() =~= r0.to_multiset().insert(x));
                assert(res@.to_multiset() =~= a@.subrange(0, ai as int).to_multiset().add(
                    b@.subrange(0, bi as int).to_multiset(),
                ));
            }
        }
    }
    proof {
        assert(a@.subrange(0, a@.len() as int) =~= a@);
        assert(b@.subrange(0, b@.len() as int) =~= b@);
    }
    res
}

/// Merge sort: splits the vector in half, recursively sorts each half and
/// merges them. Returns a new vector in non-decreasing order holding the
/// same multiset of elements as the input.
pub fn merge_sort(v: Vec<u64>) -> (r: Vec<u64>)
    ensures
        r@.len() == v@.len(),
        r@.to_multiset() == v@.to_multiset(),
        sorted(r@),
        sorted(v@) ==> r@ == v@,
    decreases v@.len(),
{
    if v.len() <= 1 {
        return v;
    }
    let mut left = v;
    let ghost orig = left@;
    let half = left.len() / 2;
    let rest = left.split_off(half);
    let a = merge_sort(left);
    let b = merge_sort(rest);
    let r = merge(a, b);
    proof {
        let lhalf = orig.subrange(0, half as int);
        let rhalf = orig.subrange(half as int, orig.len() as int);
        assert(orig =~= lhalf + rhalf);
        vstd::seq_lib::lemma_multiset_commutative(lhalf, rhalf);
        if sorted(orig) {
            lemma_sorted_permutation_is_identity(r@, orig);
        }
    }
    r
}

/// Partitions `v[lo..hi]` in place around a pivot drawn from `rng`: a random
/// position is swapped to the front, then a single Lomuto-style pass moves
/// every element that compares less than the pivot in front of it. Returns
/// the pivot's final index; equal-to-pivot elements land on the right side.
fn pivot_range(v: &mut Vec<u64>, lo: usize, hi: usize, rng: &mut RandGen) -> (p: usize)
    requires
        old(rng).wf(),
        lo < hi <= old(v).len(),
    ensures
        final(rng).wf(),
        lo <= p < hi,
        final(v)@.len() == old(v)@.len(),
        forall|k: int| 0 <= k < lo || hi <= k < old(v)@.len() ==> final(v)@[k] == old(v)@[k],
        final(v)@.to_multiset() == old(v)@.to_multiset(),
        forall|k: int| lo <= k < p ==> final(v)@[k] < final(v)@[p as int],
        forall|k: int| p < k < hi ==> final(v)@[k] >= final(v)@[p as int],
{
    let r = rng.gen((hi - lo) as u64);
    let ridx = lo + (r as usize);
    swap_in(v, lo, ridx);
    let mut p: usize = lo;
    let mut i: usize = lo + 1;
    while i < hi
        invariant
            lo <= p < i <= hi <= v@.len(),
            v@.len() == old(v)@.len(),
            forall|k: int| 0 <= k < lo || hi <= k < old(v)@.len() ==> v@[k] == old(v)@[k],
            v@.to_multiset() == old(v)@.to_multiset(),
            forall|k: int| lo <= k < p ==> v@[k] < v@[p as int],
            forall|k: int| p < k < i ==> v@[k] >= v@[p as int],
        decreases hi - i,
    {
        if v[i] < v[p] {
            swap_in(v, p + 1, i);
            swap_in(v, p, p + 1);
            p = p + 1;
        }
        i = i + 1;
    }
    p
}

/// Partitions the whole vector in place around a pivot drawn from `rng` and
/// returns the pivot's final index: before it every element compares less
/// than the pivot, from it onward no element does.
pub fn pivot_with(v: &mut Vec<u64>, rng: &mut RandGen) -> (p: usize)
    requires
        old(rng).wf(),
        old(v).len() >= 1,
    ensures
        final(rng).wf(),
        p < final(v)@.len(),
        final(v)@.len() == old(v)@.len(),
        final(v)@.to_multiset() == old(v)@.to_multiset(),
        forall|k: int| 0 <= k < p ==> final(v)@[k] < final(v)@[p as int],
        forall|k: int| p < k < final(v)@.len() ==> final(v)@[k] >= final(v)@[p as int],
{
    let len = v.len();
    pivot_range(v, 0, len, rng)
}

/// Partitions the vector around a pivot drawn from a freshly seeded
/// generator; see [`pivot_with`] for the partition contract.
pub fn pivot(v: &mut Vec<u64>) -> (p: usize)
    requires
        old(v).len() >= 1,
    ensures
        p < final(v)@.len(),
        final(v)@.len() == old(v)@.len(),
        final(v)@.to_multiset() == old(v)@.to_multiset(),
        forall|k: int| 0 <= k < p ==> final(v)@[k] < final(v)@[p as int],
        forall|k: int| p < k < final(v)@.len() ==> final(v)@[k] >= final(v)@[p as int],
{
    let mut rng = RandGen::new(DEFAULT_SEED);
    pivot_with(v, &mut rng)
}

/// Sorts `v[lo..hi]` in place: partitions around a random pivot, then
/// recursively sorts the part before it and the part after it; the pivot
/// itself is already in its final position.
fn quick_sort_range(v: &mut Vec<u64>, lo: usize, hi: usize, rng: &mut RandGen)
    requires
        old(rng).wf(),
        lo <= hi <= old(v).len(),
    ensures
        final(rng).wf(),
        final(v)@.len() == old(v)@.len(),
        forall|k: int| 0 <= k < lo || hi <= k < old(v)@.len() ==> final(v)@[k] == old(v)@[k],
        final(v)@.to_multiset() == old(v)@.to_multiset(),
        sorted_range(final(v)@, lo as int, hi as int),
    decreases hi - lo,
{
    if hi - lo <= 1 {
        return;
    }
    let p = pivot_range(v, lo, hi, rng);
    let ghost s1 = v@;
    let ghost piv = v@[p as int];
    quick_sort_range(v, lo, p, rng);
    let ghost s2 = v@;
    quick_sort_range(v, p + 1, hi, rng);
    let ghost s3 = v@;
    proof {
        lemma_frame_multiset(s2, s1, lo as int, p as int);
        lemma_multiset_same_members(
            s2.subrange(lo as int, p as int),
            s1.subrange(lo as int, p as int),
        );
        lemma_frame_multiset(s3, s2, p + 1 as int, hi as int);
        lemma_multiset_same_members(
            s3.subrange(p + 1 as int, hi as int),
            s2.subrange(p + 1 as int, hi as int),
        );
        assert(s3[p as int] == piv);
        assert forall|k: int| lo <= k < p implies s3[k] < piv by {
            let lsub2 = s2.subrange(lo as int, p as int);
            let lsub1 = s1.subrange(lo as int, p as int);
            assert(lsub2[k - lo] == s2[k]);
            assert(lsub2.contains(s2[k]));
            assert(lsub1.contains(s2[k]));
            let m = choose|m: int| 0 <= m < lsub1.len() && lsub1[m] == s2[k];
            assert(s1[lo + m] == s2[k]);
            assert(s3[k] == s2[k]);
        }
        assert forall|k: int| p < k < hi implies s3[k] >= piv by {
            let rsub3 = s3.subrange(p + 1 as int, hi as int);
            let rsub2 = s2.subrange(p + 1 as int, hi as int);
            assert(rsub3[k - (p + 1)] == s3[k]);
            assert(rsub3.contains(s3[k]));
            assert(rsub2.contains(s3[k]));
            let m = choose|m: int| 0 <= m < rsub2.len() && rsub2[m] == s3[k];
            assert(s2[p + 1 + m] == s3[k]);
            assert(s2[p + 1 + m] == s1[p + 1 + m]);
        }
        assert forall|i: int, j: int| lo <= i <= j < hi implies s3[i] <= s3[j] by {
            if j < p {
                assert(s3[i] == s2[i] && s3[j] == s2[j]);
            } else if i < p && j == p {
                assert(s3[i] < piv);
            } else if i < p && j > p {
                assert(s3[i] < piv && s3[j] >= piv);
            } else if i == p && j > p {
                assert(s3[j] >= piv);
            }
        }
    }
}

/// Sequential randomized quicksort, drawing pivots from `rng`: sorts the
/// vector in place into non-decreasing order, leaving its multiset of
/// elements unchanged.
pub fn quick_sort_with(v: &mut Vec<u64>, rng: &mut RandGen)
    requires
        old(rng).wf(),
    ensures
        final(rng).wf(),
        final(v)@.len() == old(v)@.len(),
        final(v)@.to_multiset() == old(v)@.to_multiset(),
        sorted(final(v)@),
        sorted(old(v)@) ==> final(v)@ == old(v)@,
{
    let len = v.len();
    quick_sort_range(v, 0, len, rng);
    proof {
        if sorted(old(v)@) {
            lemma_sorted_permutation_is_identity(v@, old(v)@);
        }
    }
}

/// Relies on rayon::join: it runs both closures — the second may be stolen
/// by an idle worker of the pool while the first runs inline — and returns
/// only after both have completed. Each closure sorts its own vector with
/// its own generator through [`quick_sort_rayon_with`], so what holds of
/// each vector afterwards is that function's contract.
#[verifier::external_body]
fn join_sorts(a: &mut Vec<u64>, ra: &mut RandGen, b: &mut Vec<u64>, rb: &mut RandGen)
    requires
        old(ra).wf(),
        old(rb).wf(),
    ensures
        final(ra).wf(),
        final(rb).wf(),
        final(a)@.len() == old(a)@.len(),
        final(a)@.to_multiset() == old(a)@.to_multiset(),
        sorted(final(a)@),
        final(b)@.len() == old(b)@.len(),
        final(b)@.to_multiset() == old(b)@.to_multiset(),
        sorted(final(b)@),
{
    rayon::join(|| quick_sort_rayon_with(a, ra), || quick_sort_rayon_with(b, rb));
}

/// Work-stealing fork-join quicksort, drawing pivots from `rng`: partitions
/// in place, splits off the part after the pivot, and submits the two
/// recursive sorts together through the fork-join primitive before gluing
/// the sorted parts back around the pivot. Sorts the vector into
/// non-decreasing order, leaving its multiset of elements unchanged.
pub fn quick_sort_rayon_with(v: &mut Vec<u64>, rng: &mut RandGen)
    requires
        old(rng).wf(),
    ensures
        final(rng).wf(),
        final(v)@.len() == old(v)@.len(),
        final(v)@.to_multiset() == old(v)@.to_multiset(),
        sorted(final(v)@),
        sorted(old(v)@) ==> final(v)@ == old(v)@,
{
    if v.len() <= 1 {
        return;
    }
    let p = pivot_with(v, rng);
    let ghost s1 = v@;
    let ghost piv = s1[p as int];
    let mut right = v.split_off(p + 1);
    let pv = match v.pop() {
        Some(x) => x,
        None => {
            proof {
                assert(false);
            }
            0
        },
    };
    proof {
        assert(v@ =~= s1.subrange(0, p as int));
        assert(right@ =~= s1.subrange(p + 1 as int, s1.len() as int));
    }
    let seed = rng.gen(MODULUS);
    let mut rng_b = RandGen::new(seed);
    let ghost left0 = v@;
    let ghost right0 = right@;
    join_sorts(v, rng, &mut right, &mut rng_b);
    proof {
        lemma_multiset_same_members(v@, left0);
        lemma_multiset_same_members(right@, right0);
        assert forall|k: int| 0 <= k < v@.len() implies v@[k] < piv by {
            assert(v@.contains(v@[k]));
            let m = choose|m: int| 0 <= m < left0.len() && left0[m] == v@[k];
            assert(s1[m] == v@[k]);
        }
        assert forall|k: int| 0 <= k < right@.len() implies right@[k] >= piv by {
            assert(right@.contains(right@[k]));
            let m = choose|m: int| 0 <= m < right0.len() && right0[m] == right@[k];
            assert(s1[p + 1 + m] == right@[k]);
        }
    }
    let ghost lft = v@;
    let ghost rgt = right@;
    v.push(pv);
    v.append(&mut right);
    proof {
        let f = lft.push(piv) + rgt;
        assert(v@ == f);
        assert forall|i: int, j: int| 0 <= i <= j < f.len() implies f[i] <= f[j] by {
            let ll = lft.len() as int;
            if j < ll {
                assert(f[i] == lft[i] && f[j] == lft[j]);
            } else if j == ll {
                assert(f[j] == piv);
            } else {
                assert(f[j] == rgt[j - ll - 1] && f[j] >= piv);
                if i < ll {
                    assert(f[i] == lft[i] && f[i] < piv);
                } else if i == ll {
                    assert(f[i] == piv);
                } else {
                    assert(f[i] == rgt[i - ll - 1]);
                }
            }
        }
        assert(s1 =~= s1.subrange(0, p as int).push(piv) + s1.subrange(
            p + 1 as int,
            s1.len() as int,
        ));
        vstd::seq_lib::lemma_multiset_commutative(s1.subrange(0, p as int).push(piv), s1.subrange(p + 1 as int, s1.len() as int));
        vstd::seq_lib::lemma_multiset_commutative(lft.push(piv), rgt);
        assert(s1.subrange(0, p as int).push(piv).to_multiset() =~= s1.subrange(
            0,
            p as int,
        ).to_multiset().insert(piv));
        assert(lft.push(piv).to_multiset() =~= lft.to_multiset().insert(piv));
        assert(v@.to_multiset() =~= s1.to_multiset());
        if sorted(old(v)@) {
            lemma_sorted_permutation_is_identity(v@, old(v)@);
        }
    }
}

/// Work-stealing fork-join quicksort with a freshly seeded generator: sorts
/// the vector in place into non-decreasing order, leaving its multiset of
/// elements unchanged.
pub fn quick_sort_rayon(v: &mut Vec<u64>)
    ensures
        final(v)@.len() == old(v)@.len(),
        final(v)@.to_multiset() == old(v)@.to_multiset(),
        sorted(final(v)@),
        sorted(old(v)@) ==> final(v)@ == old(v)@,
{
    let mut rng = RandGen::new(DEFAULT_SEED);
    quick_sort_rayon_with(v, &mut rng);
}

/// Sequential randomized quicksort with a freshly seeded generator: sorts
/// the vector in place into non-decreasing order, leaving its multiset of
/// elements unchanged.
pub fn quick_sort(v: &mut Vec<u64>)
    ensures
        final(v)@.len() == old(v)@.len(),
        final(v)@.to_multiset() == old(v)@.to_multiset(),
        sorted(final(v)@),
        sorted(old(v)@) ==> final(v)@ == old(v)@,
{
    let mut rng = RandGen::new(DEFAULT_SEED);
    quick_sort_with(v, &mut rng);
}

} // verus!
