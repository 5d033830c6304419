//! The mathematical model: ascending sort, rank, and the lemmas that tie a
//! partially ordered sequence to its sorted form.
use vstd::prelude::*;
use vstd::relations::{sorted_by, total_ordering};
use vstd::seq_lib::lemma_multiset_commutative;
use vstd::seq_lib::lemma_sorted_unique;

verus! {

broadcast use vstd::seq_lib::group_to_multiset_ensures, vstd::multiset::group_multiset_axioms;

/// The ascending order on values.
pub open spec fn ascending() -> spec_fn(i64, i64) -> bool {
    |x: i64, y: i64| x <= y
}

/// `s` sorted in ascending order.
pub open spec fn sorted(s: Seq<i64>) -> Seq<i64> {
    s.sort_by(ascending())
}

/// The value at 0-based position `k` of `s` sorted ascending: the k-th smallest.
pub open spec fn kth_smallest(s: Seq<i64>, k: int) -> i64 {
    sorted(s)[k]
}

/// Position `k` splits `s`: nothing before it is larger, nothing after it is smaller.
pub open spec fn split_at_rank(s: Seq<i64>, k: int) -> bool {
    &&& 0 <= k < s.len()
    &&& forall|i: int| 0 <= i < k ==> #[trigger] s[i] <= s[k]
    &&& forall|i: int| k < i < s.len() ==> s[k] <= #[trigger] s[i]
}

/// `s` with the values at `i` and `j` exchanged.
pub open spec fn swapped(s: Seq<i64>, i: int, j: int) -> Seq<i64> {
    s.update(i, s[j]).update(j, s[i])
}

/// `<=` on values is a total order.
pub proof fn lemma_ascending_total()
    ensures
        total_ordering(ascending()),
{
}

/// Sorting keeps the values and orders them.
pub proof fn lemma_sorted(s: Seq<i64>)
    ensures
        sorted(s).to_multiset() == s.to_multiset(),
        sorted(s).len() == s.len(),
        sorted_by(sorted(s), ascending()),
        forall|x: i64| #[trigger] sorted(s).contains(x) ==> s.contains(x),
{
    lemma_ascending_total();
    s.lemma_sort_by_ensures(ascending());
    assert(sorted(s).len() == sorted(s).to_multiset().len());
}

/// Replacing one value of a sequence replaces it in its multiset.
proof fn lemma_update_multiset(s: Seq<i64>, i: int, v: i64)
    requires
        0 <= i < s.len(),
    ensures
        s.update(i, v).to_multiset() =~= s.to_multiset().remove(s[i]).insert(v),
{
    let t = s.update(i, v);
    assert(t.remove(i) =~= s.remove(i));
    assert(t.to_multiset().count(v) > 0) by {
        assert(t.contains(v)) by { assert(t[i] == v); }
    }
    assert(t.to_multiset().remove(v) =~= s.to_multiset().remove(s[i]));
}

/// Rank depends on the values alone, not on their order.
pub proof fn lemma_kth_of_same_values(s: Seq<i64>, t: Seq<i64>, k: int)
    requires
        s.to_multiset() == t.to_multiset(),
    ensures
        kth_smallest(s, k) == kth_smallest(t, k),
{
    lemma_sorted(s);
    lemma_sorted(t);
    lemma_ascending_total();
    lemma_sorted_unique(sorted(s), sorted(t), ascending());
}

/// The k-th smallest value is what position `k` holds in any ascending
/// arrangement of the same values.
pub proof fn lemma_kth_by_sorting(s: Seq<i64>, t: Seq<i64>, k: int)
    requires
        t.to_multiset() == s.to_multiset(),
        sorted_by(t, ascending()),
        0 <= k < s.len(),
    ensures
        kth_smallest(s, k) == t[k],
{
    lemma_sorted(s);
    lemma_ascending_total();
    lemma_sorted_unique(t, sorted(s), ascending());
}

/// Exchanging two values keeps the multiset of a sequence.
pub proof fn lemma_swap_multiset(s: Seq<i64>, i: int, j: int)
    requires
        0 <= i < s.len(),
        0 <= j < s.len(),
    ensures
        swapped(s, i, j).to_multiset() =~= s.to_multiset(),
{
    if i != j {
        let s1 = s.update(i, s[j]);
        lemma_update_multiset(s, i, s[j]);
        lemma_update_multiset(s1, j, s[i]);
        assert(s.to_multiset().count(s[i]) > 0) by { assert(s.contains(s[i])); }
        assert(s.to_multiset().remove(s[i]).insert(s[j]).remove(s[j]).insert(s[i]) =~= s.to_multiset());
    } else {
        assert(swapped(s, i, j) =~= s);
    }
}

/// Exchanging two values inside `[lo, hi)` keeps the multiset of the whole
/// sequence and of that range.
pub proof fn lemma_swap_in_range(s: Seq<i64>, lo: int, hi: int, i: int, j: int)
    requires
        0 <= lo <= i < hi <= s.len(),
        lo <= j < hi,
    ensures
        swapped(s, i, j).len() == s.len(),
        swapped(s, i, j).to_multiset() =~= s.to_multiset(),
        swapped(s, i, j).subrange(lo, hi).to_multiset() =~= s.subrange(lo, hi).to_multiset(),
{
    lemma_swap_multiset(s, i, j);
    let t = s.subrange(lo, hi);
    assert(swapped(s, i, j).subrange(lo, hi) =~= swapped(t, i - lo, j - lo));
    lemma_swap_multiset(t, i - lo, j - lo);
}

/// Where the values of `[lo, hi]` were only rearranged, each value found there
/// afterwards was somewhere in that range before.
pub proof fn lemma_source_index(s: Seq<i64>, t: Seq<i64>, lo: int, hi: int, j: int) -> (m: int)
    requires
        0 <= lo <= j <= hi < s.len(),
        hi < t.len(),
        t.subrange(lo, hi + 1).to_multiset() == s.subrange(lo, hi + 1).to_multiset(),
    ensures
        lo <= m <= hi,
        t[j] == s[m],
{
    let ts = t.subrange(lo, hi + 1);
    let ss = s.subrange(lo, hi + 1);
    assert(ts[j - lo] == t[j]);
    assert(ts.contains(t[j]));
    assert(ts.to_multiset().count(t[j]) > 0);
    assert(ss.to_multiset().count(t[j]) > 0);
    assert(ss.contains(t[j]));
    let i = choose|i: int| 0 <= i < ss.len() && ss[i] == t[j];
    lo + i
}

/// A sequence that is split at rank `k` holds there the k-th smallest value of
/// every sequence with the same values.
pub proof fn lemma_split_is_kth(t: Seq<i64>, s: Seq<i64>, k: int)
    requires
        split_at_rank(t, k),
        t.to_multiset() == s.to_multiset(),
    ensures
        t[k] == kth_smallest(s, k),
{
    let left = t.subrange(0, k);
    let right = t.subrange(k + 1, t.len() as int);
    lemma_sorted(left);
    lemma_sorted(right);
    lemma_sorted(s);
    let u = sorted(left) + seq![t[k]] + sorted(right);
    assert(t =~= left + seq![t[k]] + right);
    lemma_multiset_commutative(left + seq![t[k]], right);
    lemma_multiset_commutative(left, seq![t[k]]);
    lemma_multiset_commutative(sorted(left) + seq![t[k]], sorted(right));
    lemma_multiset_commutative(sorted(left), seq![t[k]]);
    assert(u.to_multiset() =~= t.to_multiset());
    assert forall|x: i64| #[trigger] sorted(left).contains(x) implies x <= t[k] by {
        let i = choose|i: int| 0 <= i < left.len() && left[i] == x;
        assert(t[i] == x);
    }
    assert forall|x: i64| #[trigger] sorted(right).contains(x) implies t[k] <= x by {
        let i = choose|i: int| 0 <= i < right.len() && right[i] == x;
        assert(t[k + 1 + i] == x);
    }
    assert(sorted_by(u, ascending())) by {
        assert forall|i: int, j: int| 0 <= i < j < u.len() implies #[trigger] ascending()(u[i], u[j]) by {
            let n = left.len() as int;
            let sl = sorted(left);
            let sr = sorted(right);
            if j < n {
                assert(u[i] == sl[i] && u[j] == sl[j]);
                assert(ascending()(sl[i], sl[j]));
            } else if i > n {
                assert(u[i] == sr[i - n - 1] && u[j] == sr[j - n - 1]);
                assert(ascending()(sr[i - n - 1], sr[j - n - 1]));
            } else {
                if i < n {
                    assert(u[i] == sl[i]);
                    assert(sl.contains(u[i]));
                }
                if j > n {
                    assert(u[j] == sr[j - n - 1]);
                    assert(sr.contains(u[j]));
                }
            }
        }
    }
    lemma_ascending_total();
    lemma_sorted_unique(u, sorted(s), ascending());
    assert(u[k] == t[k]);
}

} // verus!
