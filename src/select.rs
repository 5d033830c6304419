//! Lomuto partition and iterative randomized selection of an order statistic.
use vstd::prelude::*;
use crate::entropy::{rand, SelectError};
use crate::order::{
    kth_smallest, lemma_source_index, lemma_split_is_kth, lemma_swap_in_range, split_at_rank,
    swapped,
};

verus! {

/// Nothing before position `l` is larger than anything from `l` on.
pub open spec fn bounded_left(s: Seq<i64>, l: int) -> bool {
    forall|i: int, j: int| 0 <= i < l <= j < s.len() ==> #[trigger] s[i] <= #[trigger] s[j]
}

/// Nothing up to position `r` is larger than anything after it.
pub open spec fn bounded_right(s: Seq<i64>, r: int) -> bool {
    forall|i: int, j: int| 0 <= i <= r < j < s.len() ==> #[trigger] s[i] <= #[trigger] s[j]
}

fn swap(a: &mut Vec<i64>, i: usize, j: usize)
    requires
        i < old(a).len(),
        j < old(a).len(),
    ensures
        final(a)@ == swapped(old(a)@, i as int, j as int),
{
    let x = a[i];
    let y = a[j];
    a.set(i, y);
    a.set(j, x);
}

/// Rearranges `a[l..=r]` around the value at `i` and returns where that value
/// ends up: everything before it in the range is smaller, everything after it
/// is not.
pub fn partition(a: &mut Vec<i64>, l: usize, r: usize, i: usize) -> (p: usize)
    requires
        l <= i <= r,
        r < old(a).len(),
    ensures
        final(a)@.len() == old(a)@.len(),
        final(a)@.to_multiset() == old(a)@.to_multiset(),
        final(a)@.subrange(l as int, r + 1).to_multiset() == old(a)@.subrange(
            l as int,
            r + 1,
        ).to_multiset(),
        forall|j: int|
            0 <= j < old(a).len() && !(l <= j <= r) ==> #[trigger] final(a)@[j] == old(a)@[j],
        l <= p <= r,
        final(a)@[p as int] == old(a)@[i as int],
        forall|j: int| l <= j < p ==> #[trigger] final(a)@[j] < final(a)@[p as int],
        forall|j: int| p < j <= r ==> final(a)@[p as int] <= #[trigger] final(a)@[j],
{
    let ghost a0 = a@;
    let x = a[i];
    proof {
        lemma_swap_in_range(a@, l as int, r + 1, i as int, r as int);
    }
    swap(a, i, r);
    let mut j: usize = l;
    let mut idx: usize = l;
    while idx < r
        invariant
            l <= j <= idx <= r,
            r < a.len(),
            a@.len() == a0.len(),
            a@[r as int] == x,
            a@.to_multiset() == a0.to_multiset(),
            a@.subrange(l as int, r + 1).to_multiset() == a0.subrange(l as int, r + 1).to_multiset(),
            forall|m: int| 0 <= m < a0.len() && !(l <= m <= r) ==> #[trigger] a@[m] == a0[m],
            forall|m: int| l <= m < j ==> #[trigger] a@[m] < x,
            forall|m: int| j <= m < idx ==> x <= #[trigger] a@[m],
        decreases r - idx,
    {
        if a[idx] < x {
            proof {
                lemma_swap_in_range(a@, l as int, r + 1, j as int, idx as int);
            }
            swap(a, j, idx);
            j += 1;
        }
        idx += 1;
    }
    proof {
        lemma_swap_in_range(a@, l as int, r + 1, r as int, j as int);
    }
    swap(a, r, j);
    j
}

/// After a partition of `[l, r]`, whatever bounded the range from outside
/// still does.
proof fn lemma_partition_keeps_bounds(s: Seq<i64>, t: Seq<i64>, l: int, r: int)
    requires
        0 <= l <= r < s.len(),
        t.len() == s.len(),
        t.subrange(l, r + 1).to_multiset() == s.subrange(l, r + 1).to_multiset(),
        forall|j: int| 0 <= j < s.len() && !(l <= j <= r) ==> #[trigger] t[j] == s[j],
        bounded_left(s, l),
        bounded_right(s, r),
    ensures
        bounded_left(t, l),
        bounded_right(t, r),
{
    assert forall|i: int, j: int| 0 <= i < l <= j < t.len() implies #[trigger] t[i] <= #[trigger] t[j] by {
        assert(t[i] == s[i]);
        if j <= r {
            let m = lemma_source_index(s, t, l, r, j);
            assert(s[i] <= s[m]);
        } else {
            assert(t[j] == s[j]);
            assert(s[i] <= s[j]);
        }
    }
    assert forall|i: int, j: int| 0 <= i <= r < j < t.len() implies #[trigger] t[i] <= #[trigger] t[j] by {
        assert(t[j] == s[j]);
        if i < l {
            assert(t[i] == s[i]);
            assert(s[i] <= s[j]);
        } else {
            let m = lemma_source_index(s, t, l, r, i);
            assert(s[m] <= s[j]);
        }
    }
}

/// Returns the k-th smallest value of `a` (0-based), rearranging `a` on the way;
/// position `k` holds that value on success.
pub fn select(a: &mut Vec<i64>, k: usize) -> (res: Result<i64, SelectError>)
    requires
        old(a).len() == 0 || k < old(a).len(),
    ensures
        final(a)@.len() == old(a)@.len(),
        final(a)@.to_multiset() == old(a)@.to_multiset(),
        res == Err::<i64, SelectError>(SelectError::EmptyInput) <==> old(a).len() == 0,
        res matches Ok(v) ==> v == kth_smallest(old(a)@, k as int) && final(a)@[k as int] == v,
        res matches Err(e) ==> e == SelectError::EmptyInput || e == SelectError::EntropyUnavailable,
        old(a).len() == 1 ==> res == Ok::<i64, SelectError>(old(a)@[0]),
{
    if a.len() == 0 {
        return Err(SelectError::EmptyInput);
    }
    let ghost a0 = a@;
    let n = a.len();
    let mut l: usize = 0;
    let mut r: usize = n - 1;
    loop
        invariant
            n == a.len(),
            a0 == old(a)@,
            a@.len() == a0.len(),
            a@.to_multiset() == a0.to_multiset(),
            l <= k <= r < n,
            bounded_left(a@, l as int),
            bounded_right(a@, r as int),
            n == 1 ==> a@ == a0,
        decreases r - l,
    {
        if l == r {
            proof {
                assert(split_at_rank(a@, k as int));
                lemma_split_is_kth(a@, a0, k as int);
            }
            return Ok(a[l]);
        }
        let i = match rand(l, r + 1) {
            Ok(i) => i,
            Err(e) => {
                return Err(e);
            },
        };
        let ghost before = a@;
        let p = partition(a, l, r, i);
        proof {
            lemma_partition_keeps_bounds(before, a@, l as int, r as int);
        }
        if k < p {
            r = p - 1;
        } else if k > p {
            l = p + 1;
        } else {
            proof {
                assert(split_at_rank(a@, k as int));
                lemma_split_is_kth(a@, a0, k as int);
            }
            return Ok(a[k]);
        }
    }
}

} // verus!
