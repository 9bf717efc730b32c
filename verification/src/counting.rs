//! Counting `true` entries of boolean sequences, used to state row and column
//! invariants of affinity matrices and to bound recursion in the solver.

use vstd::prelude::*;

verus! {

/// Number of `true` entries in a boolean sequence.
pub open spec fn count_true(s: Seq<bool>) -> int
    decreases s.len(),
{
    if s.len() == 0 {
        0
    } else {
        count_true(s.drop_last()) + if s.last() {
            1int
        } else {
            0int
        }
    }
}

pub proof fn lemma_count_true_bounds(s: Seq<bool>)
    ensures
        0 <= count_true(s) <= s.len(),
    decreases s.len(),
{
    if s.len() > 0 {
        lemma_count_true_bounds(s.drop_last());
    }
}

/// A sequence without `true` entries counts to zero.
pub proof fn lemma_count_true_zero(s: Seq<bool>)
    requires
        forall|i: int| 0 <= i < s.len() ==> !s[i],
    ensures
        count_true(s) == 0,
    decreases s.len(),
{
    if s.len() > 0 {
        lemma_count_true_zero(s.drop_last());
    }
}

/// Overwriting one position changes the count by the difference of the old
/// and new entries.
pub proof fn lemma_count_true_update(s: Seq<bool>, i: int, b: bool)
    requires
        0 <= i < s.len(),
    ensures
        count_true(s.update(i, b)) == count_true(s) + (if b {
            1int
        } else {
            0int
        }) - (if s[i] {
            1int
        } else {
            0int
        }),
    decreases s.len(),
{
    let t = s.update(i, b);
    if i == s.len() - 1 {
        assert(t.drop_last() =~= s.drop_last());
    } else {
        assert(t.drop_last() =~= s.drop_last().update(i, b));
        lemma_count_true_update(s.drop_last(), i, b);
    }
}

/// Two sequences that agree everywhere but at one position, where the first
/// is `true` and the second `false`, differ by one in their counts.
pub proof fn lemma_count_true_one_diff(u: Seq<bool>, v: Seq<bool>, pos: int)
    requires
        u.len() == v.len(),
        0 <= pos < u.len(),
        u[pos],
        !v[pos],
        forall|i: int| 0 <= i < u.len() && i != pos ==> u[i] == v[i],
    ensures
        count_true(u) == count_true(v) + 1,
{
    assert(u =~= v.update(pos, true));
    lemma_count_true_update(v, pos, true);
}

} // verus!
