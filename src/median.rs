//! The median as one or two selections.
use vstd::prelude::*;
use crate::entropy::SelectError;
use vstd::relations::sorted_by;
use crate::order::{ascending, kth_smallest, lemma_kth_by_sorting, lemma_kth_of_same_values};
use crate::select::select;

verus! {

/// The median of a non-empty sequence.
#[derive(Debug, Clone, Copy, PartialEq, Eq, Structural)]
pub enum Median {
    /// Odd length: the middle value.
    Middle(i64),
    /// Even length: the mean of the two middle values, the lower one first.
    Mean(i64, i64),
}

/// The median of `s` by its sorted form: the value at rank `n / 2` for odd
/// `n`, and the mean of the values at ranks `n / 2 - 1` and `n / 2` for even `n`.
pub open spec fn median_of(s: Seq<i64>) -> Median {
    let n = s.len() as int;
    if n % 2 == 1 {
        Median::Middle(kth_smallest(s, n / 2))
    } else {
        Median::Mean(kth_smallest(s, n / 2 - 1), kth_smallest(s, n / 2))
    }
}

/// The median agrees with the one read off a fully sorted copy: the middle
/// value for odd length, the two values next to the middle for even length.
pub proof fn lemma_median_by_sorting(s: Seq<i64>, t: Seq<i64>)
    requires
        s.len() > 0,
        t.to_multiset() == s.to_multiset(),
        sorted_by(t, ascending()),
    ensures
        t.len() == s.len(),
        s.len() % 2 == 1 ==> median_of(s) == Median::Middle(t[(s.len() / 2) as int]),
        s.len() % 2 == 0 ==> median_of(s) == Median::Mean(t[(s.len() / 2 - 1) as int], t[(s.len() / 2) as int]),
{
    broadcast use vstd::seq_lib::group_to_multiset_ensures;

    assert(t.len() == t.to_multiset().len());
    let n = s.len() as int;
    lemma_kth_by_sorting(s, t, n / 2);
    if n % 2 == 0 {
        lemma_kth_by_sorting(s, t, n / 2 - 1);
    }
}

impl Median {
    /// Twice the median, which is always an integer.
    pub open spec fn twice(self) -> int {
        match self {
            Median::Middle(v) => 2 * v,
            Median::Mean(lo, hi) => lo + hi,
        }
    }

    /// Twice the median, computed exactly.
    pub fn doubled(&self) -> (r: i128)
        ensures
            r == self.twice(),
    {
        match self {
            Median::Middle(v) => 2 * (*v as i128),
            Median::Mean(lo, hi) => *lo as i128 + *hi as i128,
        }
    }
}

/// Computes the median of `a` by selection, rearranging `a` on the way.
///
/// For even length the value at rank `n / 2` is selected first and the value at
/// rank `n / 2 - 1` second, from the order that the first selection left.
pub fn median(a: &mut Vec<i64>) -> (res: Result<Median, SelectError>)
    ensures
        final(a)@.len() == old(a)@.len(),
        final(a)@.to_multiset() == old(a)@.to_multiset(),
        res == Err::<Median, SelectError>(SelectError::EmptyInput) <==> old(a).len() == 0,
        res matches Ok(m) ==> m == median_of(old(a)@),
        res matches Err(e) ==> e == SelectError::EmptyInput || e == SelectError::EntropyUnavailable,
        old(a).len() == 1 ==> res == Ok::<Median, SelectError>(Median::Middle(old(a)@[0])),
{
    let ghost a0 = a@;
    let n = a.len();
    if n % 2 == 0 {
        match select(a, n / 2) {
            Ok(fst) => {
                let ghost a1 = a@;
                match select(a, n / 2 - 1) {
                    Ok(snd) => {
                        proof {
                            lemma_kth_of_same_values(a1, a0, (n / 2 - 1) as int);
                        }
                        Ok(Median::Mean(snd, fst))
                    },
                    Err(e) => Err(e),
                }
            },
            Err(e) => Err(e),
        }
    } else {
        match select(a, n / 2) {
            Ok(v) => Ok(Median::Middle(v)),
            Err(e) => Err(e),
        }
    }
}

} // verus!
