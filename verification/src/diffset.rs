//! Search for perfect difference sets modulo `m = n*(n-1)+1` and the
//! symmetric-design affinity matrices derived from them.

use crate::arith::{
    lemma_m_pos, lemma_norm_add_norm, lemma_norm_inj, lemma_norm_small, lemma_norm_sub_norm,
    lemma_normalize_periodic, m_of, norm_spec, normalize,
};
use crate::combs::strictly_increasing;
use crate::counting::{count_true, lemma_count_true_one_diff, lemma_count_true_update,
    lemma_count_true_zero};
use vstd::prelude::*;

verus! {

/// Every element lies in `[0, m_of(n))`.
pub open spec fn in_range(s: Seq<i32>, n: int) -> bool {
    forall|t: int| 0 <= t < s.len() ==> 0 <= #[trigger] s[t] < m_of(n)
}

/// The ordered differences of distinct elements are pairwise distinct
/// modulo `m_of(n)`: no nonzero residue is realized by two different ordered
/// pairs.
pub open spec fn diffs_distinct(s: Seq<i32>, n: int) -> bool {
    forall|a: int, b: int, c: int, d: int|
        #![trigger norm_spec(s[a] - s[b], n), norm_spec(s[c] - s[d], n)]
        0 <= a < s.len() && 0 <= b < s.len() && a != b && 0 <= c < s.len() && 0 <= d < s.len() && c
            != d && !(a == c && b == d) ==> norm_spec(s[a] - s[b], n) != norm_spec(s[c] - s[d], n)
}

/// Differences of distinct elements are nonzero modulo `m_of(n)`.
pub open spec fn diffs_nonzero(s: Seq<i32>, n: int) -> bool {
    forall|a: int, b: int|
        #![trigger norm_spec(s[a] - s[b], n)]
        0 <= a < s.len() && 0 <= b < s.len() && a != b ==> norm_spec(s[a] - s[b], n) != 0
}

/// A perfect difference set for parameter `n`: `n` strictly increasing
/// residues starting at 0 whose ordered differences realize every nonzero
/// residue at most once.
pub open spec fn is_diffset(s: Seq<i32>, n: int) -> bool {
    &&& s.len() == n
    &&& s[0] == 0
    &&& strictly_increasing(s)
    &&& in_range(s, n)
    &&& diffs_distinct(s, n)
    &&& diffs_nonzero(s, n)
}

/// Residue `v` is already realized as an ordered difference of two distinct
/// elements of `ret`.
pub open spec fn used_diff(ret: Seq<i32>, n: int, v: int) -> bool {
    exists|s: int, t: int|
        0 <= s < ret.len() && 0 <= t < ret.len() && s != t && norm_spec(ret[s] - ret[t], n) == v
}

/// The used-difference table of a partial set: one entry per residue.
pub open spec fn table_of(ret: Seq<i32>, n: int) -> Seq<bool> {
    Seq::new(m_of(n) as nat, |v: int| used_diff(ret, n, v))
}

/// Candidate `k` can extend `ret`: no forward difference collides with a
/// backward difference, and no new difference is already used.
pub open spec fn cand_ok(ret: Seq<i32>, n: int, k: int) -> bool {
    &&& (forall|s: int, t: int|
        #![trigger norm_spec(k - ret[s], n), norm_spec(ret[t] - k, n)]
        0 <= s < ret.len() && 0 <= t < ret.len() ==> norm_spec(k - ret[s], n) != norm_spec(
            ret[t] - k,
            n,
        ))
    &&& (forall|s: int|
        #![trigger ret[s]]
        0 <= s < ret.len() ==> !used_diff(ret, n, norm_spec(k - ret[s], n)) && !used_diff(
            ret,
            n,
            norm_spec(ret[s] - k, n),
        ))
}

/// The depth-first backtracking search: extend `ret` (already `i` elements)
/// with candidates drawn in increasing order starting at `j`; the first
/// completed extension wins.
pub open spec fn spec_dfs(n: int, ret: Seq<i32>, i: int, j: int) -> Option<Seq<i32>>
    decreases n - i, m_of(n) - j,
        when i <= n && j <= m_of(n)
{
    if i >= n {
        Some(ret)
    } else if j >= m_of(n) {
        None
    } else if cand_ok(ret, n, j) {
        match spec_dfs(n, ret.push(j as i32), i + 1, j + 1) {
            Some(d) => Some(d),
            None => spec_dfs(n, ret, i, j + 1),
        }
    } else {
        spec_dfs(n, ret, i, j + 1)
    }
}

/// The difference set returned for parameter `n`, if any: the search starts
/// from the singleton `[0]`.
pub open spec fn diffset_spec(n: int) -> Option<Seq<i32>> {
    spec_dfs(n, seq![0i32], 1, 1)
}

/// The invariant carried by every partial set during the search.
pub open spec fn partial_ok(ret: Seq<i32>, n: int) -> bool {
    &&& ret.len() >= 1
    &&& ret[0] == 0
    &&& strictly_increasing(ret)
    &&& in_range(ret, n)
    &&& diffs_distinct(ret, n)
    &&& diffs_nonzero(ret, n)
}

/// An accepted candidate preserves the partial-set invariant.
pub proof fn lemma_cand_ok_push(ret: Seq<i32>, n: int, k: int)
    requires
        n >= 1,
        m_of(n) <= 0x7fffffff,
        partial_ok(ret, n),
        0 <= k < m_of(n),
        forall|t: int| 0 <= t < ret.len() ==> #[trigger] ret[t] < k,
        cand_ok(ret, n, k),
    ensures
        partial_ok(ret.push(k as i32), n),
{
    let m = m_of(n);
    let q = ret.push(k as i32);
    let len = ret.len() as int;
    lemma_m_pos(n);
    assert(k as i32 as int == k);
    assert(q[len] == k as i32);
    assert(forall|t: int| 0 <= t < len ==> q[t] == ret[t]);
    assert(strictly_increasing(q));
    assert(in_range(q, n));
    lemma_norm_small(0, n);
    // nonzero differences involving the new element
    assert forall|a: int, b: int|
        0 <= a < q.len() && 0 <= b < q.len() && a != b implies #[trigger] norm_spec(
        q[a] - q[b],
        n,
    ) != 0 by {
        if a == len || b == len {
            assert(-m < q[a] - q[b] < m);
            assert(q[a] - q[b] != 0);
            if norm_spec(q[a] - q[b], n) == 0 {
                lemma_norm_inj(q[a] - q[b], 0, n);
            }
        }
    }
    // pairwise distinct differences
    assert forall|a: int, b: int, c: int, d: int|
        0 <= a < q.len() && 0 <= b < q.len() && a != b && 0 <= c < q.len() && 0 <= d < q.len() && c
            != d && !(a == c && b == d) && norm_spec(q[a] - q[b], n) == norm_spec(
            q[c] - q[d],
            n,
        ) implies false by {
        let va = q[a] - q[b];
        let vc = q[c] - q[d];
        if a < len && b < len && c < len && d < len {
            assert(norm_spec(ret[a] - ret[b], n) != norm_spec(ret[c] - ret[d], n));
        } else if a == len && c == len {
            // k - q[b] vs k - q[d], b != d
            assert(b != d);
            assert(-m < va - vc < m);
            lemma_norm_inj(va, vc, n);
        } else if b == len && d == len {
            assert(a != c);
            assert(-m < va - vc < m);
            lemma_norm_inj(va, vc, n);
        } else if a == len && d == len {
            // forward vs backward difference of k
            assert(norm_spec(k - ret[b], n) != norm_spec(ret[c] - k, n));
        } else if b == len && c == len {
            assert(norm_spec(k - ret[d], n) != norm_spec(ret[a] - k, n));
        } else if a == len {
            // new forward difference vs an old difference
            assert(c < len && d < len);
            assert(used_diff(ret, n, norm_spec(ret[c] - ret[d], n)));
            assert(!used_diff(ret, n, norm_spec(k - ret[b], n)));
        } else if b == len {
            assert(c < len && d < len);
            assert(used_diff(ret, n, norm_spec(ret[c] - ret[d], n)));
            assert(!used_diff(ret, n, norm_spec(ret[a] - k, n)));
        } else if c == len {
            assert(a < len && b < len);
            assert(used_diff(ret, n, norm_spec(ret[a] - ret[b], n)));
            assert(!used_diff(ret, n, norm_spec(k - ret[d], n)));
        } else {
            assert(d == len);
            assert(a < len && b < len);
            assert(used_diff(ret, n, norm_spec(ret[a] - ret[b], n)));
            assert(!used_diff(ret, n, norm_spec(ret[c] - k, n)));
        }
    }
}

/// Soundness of the search: whatever it returns is a perfect difference set.
pub proof fn lemma_spec_dfs_sound(n: int, ret: Seq<i32>, i: int, j: int)
    requires
        n >= 1,
        m_of(n) <= 0x7fffffff,
        partial_ok(ret, n),
        ret.len() == i,
        1 <= i <= n,
        1 <= j <= m_of(n),
        forall|t: int| 0 <= t < ret.len() ==> #[trigger] ret[t] < j,
    ensures
        spec_dfs(n, ret, i, j) matches Some(d) ==> is_diffset(d, n),
    decreases n - i, m_of(n) - j,
{
    let m = m_of(n);
    if i >= n {
    } else if j >= m {
    } else {
        if cand_ok(ret, n, j) {
            lemma_cand_ok_push(ret, n, j);
            let q = ret.push(j as i32);
            assert(forall|t: int| 0 <= t < q.len() ==> #[trigger] q[t] < j + 1);
            lemma_spec_dfs_sound(n, q, i + 1, j + 1);
            lemma_spec_dfs_sound(n, ret, i, j + 1);
        } else {
            lemma_spec_dfs_sound(n, ret, i, j + 1);
        }
    }
}

/// The search result for any `n >= 1` is a perfect difference set.
pub proof fn lemma_diffset_spec_sound(n: int)
    requires
        1 <= n <= 46340,
    ensures
        diffset_spec(n) matches Some(d) ==> is_diffset(d, n),
{
    lemma_m_pos(n);
    assert(m_of(n) <= 0x7fffffff) by (nonlinear_arith)
        requires
            1 <= n <= 46340,
    ;
    let ret = seq![0i32];
    lemma_norm_small(0, n);
    assert(partial_ok(ret, n));
    lemma_spec_dfs_sound(n, ret, 1, 1);
}

/// Residue `v` is one of the differences that appending candidate `k` adds
/// against the first `s` existing elements.
pub open spec fn is_new_diff_upto(ret: Seq<i32>, n: int, k: int, s: int, v: int) -> bool {
    exists|s2: int|
        #![trigger ret[s2]]
        0 <= s2 < s && (v == norm_spec(k - ret[s2], n) || v == norm_spec(ret[s2] - k, n))
}

/// Appending `k` extends the used-difference relation by exactly the forward
/// and backward differences of `k` against the existing elements.
pub proof fn lemma_used_diff_push(ret: Seq<i32>, n: int, k: int, v: int)
    requires
        n >= 1,
        m_of(n) <= 0x7fffffff,
        0 <= k < m_of(n),
    ensures
        used_diff(ret.push(k as i32), n, v) == (used_diff(ret, n, v) || is_new_diff_upto(
            ret,
            n,
            k,
            ret.len() as int,
            v,
        )),
{
    let q = ret.push(k as i32);
    let len = ret.len() as int;
    assert(k as i32 as int == k);
    if used_diff(q, n, v) {
        let (s, t) = choose|s: int, t: int|
            0 <= s < q.len() && 0 <= t < q.len() && s != t && norm_spec(q[s] - q[t], n) == v;
        if s < len && t < len {
            assert(used_diff(ret, n, v));
        } else if s == len {
            assert(ret[t] == q[t]);
            assert(v == norm_spec(k - ret[t], n));
            assert(is_new_diff_upto(ret, n, k, len, v));
        } else {
            assert(t == len);
            assert(ret[s] == q[s]);
            assert(v == norm_spec(ret[s] - k, n));
            assert(is_new_diff_upto(ret, n, k, len, v));
        }
    }
    if used_diff(ret, n, v) {
        let (s, t) = choose|s: int, t: int|
            0 <= s < ret.len() && 0 <= t < ret.len() && s != t && norm_spec(ret[s] - ret[t], n)
                == v;
        assert(q[s] == ret[s] && q[t] == ret[t]);
        assert(used_diff(q, n, v));
    }
    if is_new_diff_upto(ret, n, k, len, v) {
        let s2 = choose|s2: int|
            #![trigger ret[s2]]
            0 <= s2 < len && (v == norm_spec(k - ret[s2], n) || v == norm_spec(ret[s2] - k, n));
        assert(q[len] == k as i32 && q[s2] == ret[s2]);
        if v == norm_spec(k - ret[s2], n) {
            assert(norm_spec(q[len] - q[s2], n) == v);
        } else {
            assert(norm_spec(q[s2] - q[len], n) == v);
        }
        assert(used_diff(q, n, v));
    }
}

/// Widening the index bound preserves membership among the new differences.
proof fn lemma_new_diff_monotone(ret: Seq<i32>, n: int, k: int, s1: int, s2: int, v: int)
    requires
        s1 <= s2,
        is_new_diff_upto(ret, n, k, s1, v),
    ensures
        is_new_diff_upto(ret, n, k, s2, v),
{
    let w = choose|w: int|
        #![trigger ret[w]]
        0 <= w < s1 && (v == norm_spec(k - ret[w], n) || v == norm_spec(ret[w] - k, n));
    assert(ret[w] == ret[w]);
}

/// Perform a depth-first search for an `(n*(n-1)+1, n, 1)` difference set,
/// extending the partial set `ret` with candidates from `j` upward. The
/// used-difference table `diff` is restored on failure.
#[verifier::loop_isolation(false)]
#[verifier::rlimit(100)]
fn dfs(n: i32, ret: &mut Vec<i32>, diff: &mut Vec<bool>, i: i32, j: i32) -> (found: bool)
    requires
        1 <= n <= 46340,
        1 <= i <= n,
        old(ret)@.len() == i,
        1 <= j <= m_of(n as int),
        partial_ok(old(ret)@, n as int),
        forall|t: int| 0 <= t < old(ret)@.len() ==> #[trigger] old(ret)@[t] < j,
        old(diff)@ == table_of(old(ret)@, n as int),
    ensures
        spec_dfs(n as int, old(ret)@, i as int, j as int) matches Some(d) ==> found
            && final(ret)@ == d,
        spec_dfs(n as int, old(ret)@, i as int, j as int) is None ==> !found
            && final(ret)@ == old(ret)@ && final(diff)@ == old(diff)@,
    decreases n - i,
{
    let ghost nn = n as int;
    let ghost mm = m_of(nn);
    proof {
        assert(m_of(nn) <= 0x7fffffff) by (nonlinear_arith)
            requires
                1 <= nn <= 46340,
        ;
        lemma_m_pos(nn);
    }
    let m = n * (n - 1) + 1;
    if i == n {
        return true;
    }
    let ghost ret0 = old(ret)@;
    let ghost table0 = old(diff)@;
    let len = ret.len();
    let mut d1: Vec<i32> = Vec::new();
    let mut d2: Vec<i32> = Vec::new();
    let mut k = j;
    while k < m
        invariant
            j <= k <= m,
            ret@ == ret0,
            diff@ == table0,
            spec_dfs(nn, ret0, i as int, j as int) == spec_dfs(nn, ret0, i as int, k as int),
        decreases m - k,
    {
        // the differences that candidate k would add, forward and backward,
        // and whether any of them is already claimed in the table
        d1.clear();
        d2.clear();
        let mut c2 = true;
        let mut s: usize = 0;
        while s < len
            invariant
                0 <= s <= len,
                d1@.len() == s as int,
                d2@.len() == s as int,
                forall|w: int|
                    0 <= w < s as int ==> (#[trigger] d1@[w]) as int == norm_spec(k - ret0[w], nn)
                        && 0 <= d1@[w] < mm,
                forall|w: int|
                    0 <= w < s as int ==> (#[trigger] d2@[w]) as int == norm_spec(ret0[w] - k, nn)
                        && 0 <= d2@[w] < mm,
                c2 == (forall|s2: int|
                    #![trigger ret0[s2]]
                    0 <= s2 < s as int ==> !used_diff(ret0, nn, norm_spec(k - ret0[s2], nn))
                        && !used_diff(ret0, nn, norm_spec(ret0[s2] - k, nn))),
            decreases len - s,
        {
            let x = ret[s];
            let dv = k - x;
            let f = if dv < 0 {
                dv + m
            } else {
                dv
            };
            let b = if dv > 0 {
                m - dv
            } else {
                -dv
            };
            proof {
                if dv < 0 {
                    lemma_normalize_periodic(dv as int, 1, nn);
                    lemma_norm_small(dv as int + mm, nn);
                } else {
                    lemma_norm_small(dv as int, nn);
                }
                if dv > 0 {
                    lemma_normalize_periodic(-(dv as int), 1, nn);
                    lemma_norm_small(mm - dv as int, nn);
                } else {
                    lemma_norm_small(-(dv as int), nn);
                }
                assert(f as int == norm_spec(k - ret0[s as int], nn));
                assert(b as int == norm_spec(ret0[s as int] - k, nn));
            }
            if diff[f as usize] || diff[b as usize] {
                c2 = false;
                proof {
                    assert(ret0[s as int] == ret0[s as int]);
                }
            }
            d1.push(f);
            d2.push(b);
            s = s + 1;
        }
        // only a candidate whose differences are all unclaimed needs the
        // collision check between its forward and backward differences
        let mut cand = false;
        if c2 {
            let mut c1 = true;
            let mut s: usize = 0;
            while s < len && c1
                invariant
                    0 <= s <= len,
                    c1 == (forall|s2: int, t2: int|
                        #![trigger norm_spec(k - ret0[s2], nn), norm_spec(ret0[t2] - k, nn)]
                        0 <= s2 < s as int && 0 <= t2 < len ==> norm_spec(k - ret0[s2], nn)
                            != norm_spec(ret0[t2] - k, nn)),
                decreases len - s,
            {
                let f = d1[s];
                let mut hit = false;
                let mut t: usize = 0;
                while t < len && !hit
                    invariant
                        0 <= t <= len,
                        s < len,
                        hit ==> (exists|t2: int|
                            0 <= t2 < len && norm_spec(ret0[t2] - k, nn) == f as int),
                        !hit ==> (forall|t2: int|
                            0 <= t2 < t as int ==> norm_spec(ret0[t2] - k, nn) != f as int),
                    decreases len - t,
                {
                    if d2[t] == f {
                        hit = true;
                        proof {
                            assert(norm_spec(ret0[t as int] - k, nn) == f as int);
                        }
                    }
                    t = t + 1;
                }
                if hit {
                    c1 = false;
                    proof {
                        let t2 = choose|t2: int|
                            0 <= t2 < len && norm_spec(ret0[t2] - k, nn) == f as int;
                        assert(norm_spec(k - ret0[s as int], nn) == norm_spec(ret0[t2] - k, nn));
                    }
                }
                s = s + 1;
            }
            proof {
                assert(c1 == (forall|s2: int, t2: int|
                    #![trigger norm_spec(k - ret0[s2], nn), norm_spec(ret0[t2] - k, nn)]
                    0 <= s2 < len && 0 <= t2 < len ==> norm_spec(k - ret0[s2], nn) != norm_spec(
                        ret0[t2] - k,
                        nn,
                    )));
            }
            cand = c1;
        }
        proof {
            assert(cand == cand_ok(ret0, nn, k as int));
        }
        if cand {
            // claim the new differences, extend the set, and descend
            let mut s: usize = 0;
            while s < len
                invariant
                    0 <= s <= len,
                    diff@.len() == mm,
                    forall|v: int|
                        #![trigger diff@[v]]
                        0 <= v < mm ==> diff@[v] == (table0[v] || is_new_diff_upto(
                            ret0,
                            nn,
                            k as int,
                            s as int,
                            v,
                        )),
                decreases len - s,
            {
                let ghost pre = diff@;
                diff.set(d1[s] as usize, true);
                diff.set(d2[s] as usize, true);
                proof {
                    let f = d1@[s as int];
                    let b = d2@[s as int];
                    assert(f as int == norm_spec(k - ret0[s as int], nn));
                    assert(b as int == norm_spec(ret0[s as int] - k, nn));
                    assert forall|v: int| #![trigger diff@[v]] 0 <= v < mm implies diff@[v] == (
                    table0[v] || is_new_diff_upto(ret0, nn, k as int, s as int + 1, v)) by {
                        if v == f as int || v == b as int {
                            assert(is_new_diff_upto(ret0, nn, k as int, s as int + 1, v));
                        } else {
                            assert(diff@[v] == pre[v]);
                            if is_new_diff_upto(ret0, nn, k as int, s as int, v) {
                                lemma_new_diff_monotone(
                                    ret0,
                                    nn,
                                    k as int,
                                    s as int,
                                    s as int + 1,
                                    v,
                                );
                            }
                            if is_new_diff_upto(ret0, nn, k as int, s as int + 1, v) {
                                let s2 = choose|s2: int|
                                    #![trigger ret0[s2]]
                                    0 <= s2 < s as int + 1 && (v == norm_spec(k - ret0[s2], nn)
                                        || v == norm_spec(ret0[s2] - k, nn));
                                assert(s2 < s as int);
                                assert(is_new_diff_upto(ret0, nn, k as int, s as int, v));
                            }
                        }
                    }
                }
                s = s + 1;
            }
            let ghost pushed = ret0.push(k as i32);
            proof {
                assert(k as i32 as int == k as int);
                assert forall|v: int| 0 <= v < mm implies diff@[v] == table_of(pushed, nn)[v] by {
                    lemma_used_diff_push(ret0, nn, k as int, v);
                }
                assert(diff@ =~= table_of(pushed, nn));
                lemma_cand_ok_push(ret0, nn, k as int);
            }
            ret.push(k);
            let rec = dfs(n, ret, diff, i + 1, k + 1);
            if rec {
                proof {
                    assert(spec_dfs(nn, pushed, i as int + 1, k as int + 1) is Some) by {
                        if spec_dfs(nn, pushed, i as int + 1, k as int + 1) is None {
                            assert(!rec);
                        }
                    }
                }
                return true;
            }
            // the whole subtree failed: restore the partial set and the table
            ret.pop();
            proof {
                assert(ret@ =~= ret0);
                assert(spec_dfs(nn, pushed, i as int + 1, k as int + 1) is None);
            }
            let mut s: usize = 0;
            while s < len
                invariant
                    0 <= s <= len,
                    ret@ == ret0,
                    diff@.len() == mm,
                    forall|v: int|
                        #![trigger diff@[v]]
                        0 <= v < mm ==> diff@[v] == (if is_new_diff_upto(
                            ret0,
                            nn,
                            k as int,
                            s as int,
                            v,
                        ) {
                            false
                        } else {
                            table_of(ret0.push(k as i32), nn)[v]
                        }),
                decreases len - s,
            {
                let ghost pre = diff@;
                diff.set(d1[s] as usize, false);
                diff.set(d2[s] as usize, false);
                proof {
                    let f = d1@[s as int];
                    let b = d2@[s as int];
                    assert(f as int == norm_spec(k - ret0[s as int], nn));
                    assert(b as int == norm_spec(ret0[s as int] - k, nn));
                    assert forall|v: int| #![trigger diff@[v]] 0 <= v < mm implies diff@[v] == (
                    if is_new_diff_upto(ret0, nn, k as int, s as int + 1, v) {
                        false
                    } else {
                        table_of(ret0.push(k as i32), nn)[v]
                    }) by {
                        if v == f as int || v == b as int {
                            assert(is_new_diff_upto(ret0, nn, k as int, s as int + 1, v));
                        } else {
                            assert(diff@[v] == pre[v]);
                            if is_new_diff_upto(ret0, nn, k as int, s as int, v) {
                                lemma_new_diff_monotone(
                                    ret0,
                                    nn,
                                    k as int,
                                    s as int,
                                    s as int + 1,
                                    v,
                                );
                            }
                            if is_new_diff_upto(ret0, nn, k as int, s as int + 1, v) {
                                let s2 = choose|s2: int|
                                    #![trigger ret0[s2]]
                                    0 <= s2 < s as int + 1 && (v == norm_spec(k - ret0[s2], nn)
                                        || v == norm_spec(ret0[s2] - k, nn));
                                assert(s2 < s as int);
                                assert(is_new_diff_upto(ret0, nn, k as int, s as int, v));
                            }
                        }
                    }
                }
                s = s + 1;
            }
            proof {
                assert(k as i32 as int == k as int);
                assert forall|v: int| 0 <= v < mm implies diff@[v] == table0[v] by {
                    lemma_used_diff_push(ret0, nn, k as int, v);
                    if is_new_diff_upto(ret0, nn, k as int, len as int, v) {
                        let s2 = choose|s2: int|
                            #![trigger ret0[s2]]
                            0 <= s2 < len as int && (v == norm_spec(k - ret0[s2], nn) || v
                                == norm_spec(ret0[s2] - k, nn));
                        assert(!used_diff(ret0, nn, v));
                    }
                }
                assert(diff@ =~= table0);
            }
        }
        k = k + 1;
    }
    false
}

/// Find a `(n*(n-1)+1, n, 1)` difference set. The search is a deterministic
/// depth-first enumeration, so equal inputs always yield equal results.
pub fn find_diffset(n: i32) -> (r: Option<Vec<i32>>)
    requires
        1 <= n <= 46340,
    ensures
        (r is Some) == (diffset_spec(n as int) is Some),
        r matches Some(v) ==> v@ == diffset_spec(n as int).unwrap() && is_diffset(v@, n as int),
{
    let ghost nn = n as int;
    let ghost mm = m_of(nn);
    proof {
        assert(m_of(nn) <= 0x7fffffff) by (nonlinear_arith)
            requires
                1 <= nn <= 46340,
        ;
        lemma_m_pos(nn);
    }
    let m = n * (n - 1) + 1;
    let mut ret: Vec<i32> = Vec::new();
    ret.push(0);
    let mut diff: Vec<bool> = Vec::new();
    while diff.len() < m as usize
        invariant
            diff@.len() <= m as usize,
            forall|t: int| 0 <= t < diff@.len() ==> !(#[trigger] diff@[t]),
        decreases m as usize - diff@.len(),
    {
        diff.push(false);
    }
    let ghost start = ret@;
    proof {
        assert(start =~= seq![0i32]);
        lemma_norm_small(0, nn);
        assert(partial_ok(start, nn));
        assert forall|v: int| 0 <= v < mm implies !used_diff(start, nn, v) by {
            if used_diff(start, nn, v) {
                let (s, t) = choose|s: int, t: int|
                    0 <= s < start.len() && 0 <= t < start.len() && s != t && norm_spec(
                        start[s] - start[t],
                        nn,
                    ) == v;
            }
        }
        assert(diff@ =~= table_of(start, nn));
    }
    if dfs(n, &mut ret, &mut diff, 1, 1) {
        proof {
            if diffset_spec(nn) is None {
                assert(false);
            }
            lemma_diffset_spec_sound(nn);
        }
        Some(ret)
    } else {
        proof {
            if diffset_spec(nn) is Some {
                assert(false);
            }
        }
        None
    }
}

/// The translate of the difference set `d` by `i + 1`, normalized.
pub open spec fn trans_seq(d: Seq<i32>, n: int, i: int) -> Seq<i32> {
    Seq::new(d.len(), |s: int| norm_spec(d[s] + i + 1, n) as i32)
}

/// Row `i` of the derived incidence matrix: true exactly at the translated
/// positions.
pub open spec fn sbibd_row(d: Seq<i32>, n: int, i: int) -> Seq<bool> {
    Seq::new(m_of(n) as nat, |t: int| trans_seq(d, n, i).contains(t as i32))
}

/// The full `m x m` incidence matrix derived from `d` by cyclic translation.
pub open spec fn sbibd_matrix(d: Seq<i32>, n: int) -> Seq<Seq<bool>> {
    Seq::new(m_of(n) as nat, |i: int| sbibd_row(d, n, i))
}

/// Column `j` of a boolean matrix.
pub open spec fn col_of(a: Seq<Seq<bool>>, j: int) -> Seq<bool> {
    Seq::new(a.len(), |i: int| a[i][j])
}

/// The design returned for parameter `n`: only `3 <= n <= 12` is supported,
/// and the diagonal is re-validated — a difference set containing `m - 1`
/// would mark a node as its own parity holder and is rejected.
pub open spec fn sbibd_spec(n: int) -> Option<Seq<Seq<bool>>> {
    if n < 3 || 12 < n {
        None
    } else {
        match diffset_spec(n) {
            None => None,
            Some(d) => if d.contains((m_of(n) - 1) as i32) {
                None
            } else {
                Some(sbibd_matrix(d, n))
            },
        }
    }
}

/// The structural guarantees of every constructed design: square shape,
/// all-false diagonal, and exactly `n` true entries in each row and column.
pub open spec fn sbibd_props(mat: Seq<Seq<bool>>, n: int) -> bool {
    &&& mat.len() == m_of(n)
    &&& (forall|i: int| 0 <= i < mat.len() ==> (#[trigger] mat[i]).len() == m_of(n))
    &&& (forall|i: int| 0 <= i < mat.len() ==> !(#[trigger] mat[i])[i])
    &&& (forall|i: int| 0 <= i < mat.len() ==> count_true(#[trigger] mat[i]) == n)
    &&& (forall|j: int| 0 <= j < m_of(n) ==> count_true(col_of(mat, j)) == n)
}

/// Matrix entry `(i, t)` holds exactly when the residue `t - i - 1` is in the
/// difference set.
pub proof fn lemma_row_entry(d: Seq<i32>, n: int, i: int, t: int)
    requires
        n >= 1,
        m_of(n) <= 0x7fffffff,
        in_range(d, n),
        0 <= i < m_of(n),
        0 <= t < m_of(n),
    ensures
        sbibd_row(d, n, i)[t] == d.contains(norm_spec(t - i - 1, n) as i32),
{
    let m = m_of(n);
    lemma_m_pos(n);
    lemma_normalize_periodic(t - i - 1, 0, n);
    if trans_seq(d, n, i).contains(t as i32) {
        let s = choose|s: int| 0 <= s < d.len() && trans_seq(d, n, i)[s] == t as i32;
        assert(norm_spec(d[s] + i + 1, n) == t);
        lemma_norm_add_norm(d[s] + i + 1, -i - 1, n);
        lemma_norm_small(d[s] as int, n);
        assert(norm_spec(t - i - 1, n) == d[s]);
        assert(d.contains(norm_spec(t - i - 1, n) as i32));
    }
    if d.contains(norm_spec(t - i - 1, n) as i32) {
        let s = choose|s: int| 0 <= s < d.len() && d[s] == norm_spec(t - i - 1, n) as i32;
        lemma_norm_add_norm(t - i - 1, i + 1, n);
        lemma_norm_small(t, n);
        assert(norm_spec(d[s] + i + 1, n) == t);
        assert(trans_seq(d, n, i)[s] == t as i32);
        assert(trans_seq(d, n, i).contains(t as i32));
    }
}

/// Translates of a duplicate-free set are duplicate-free and in range.
pub proof fn lemma_trans_distinct(d: Seq<i32>, n: int, i: int)
    requires
        n >= 1,
        m_of(n) <= 0x7fffffff,
        in_range(d, n),
        strictly_increasing(d),
    ensures
        trans_seq(d, n, i).no_duplicates(),
        forall|s: int|
            0 <= s < d.len() ==> 0 <= #[trigger] trans_seq(d, n, i)[s] < m_of(n),
{
    let ts = trans_seq(d, n, i);
    assert forall|s: int| 0 <= s < d.len() implies 0 <= #[trigger] ts[s] < m_of(n) by {
        lemma_normalize_periodic(d[s] + i + 1, 0, n);
    }
    assert forall|s1: int, s2: int|
        0 <= s1 < ts.len() && 0 <= s2 < ts.len() && s1 != s2 implies #[trigger] ts[s1]
        != #[trigger] ts[s2] by {
        lemma_normalize_periodic(d[s1] + i + 1, 0, n);
        lemma_normalize_periodic(d[s2] + i + 1, 0, n);
        if ts[s1] == ts[s2] {
            lemma_norm_inj(d[s1] + i + 1, d[s2] + i + 1, n);
        }
    }
}

/// Each residue of a duplicate-free set is hit exactly once when row `c` is
/// scanned: the row-count lemma.
pub proof fn lemma_count_row(d: Seq<i32>, n: int, c: int)
    requires
        n >= 1,
        m_of(n) <= 0x7fffffff,
        in_range(d, n),
        d.no_duplicates(),
    ensures
        count_true(Seq::new(m_of(n) as nat, |t: int| d.contains(norm_spec(t - c, n) as i32)))
            == d.len(),
    decreases d.len(),
{
    let m = m_of(n);
    lemma_m_pos(n);
    let u = Seq::new(m as nat, |t: int| d.contains(norm_spec(t - c, n) as i32));
    if d.len() == 0 {
        assert forall|t: int| 0 <= t < u.len() implies !u[t] by {
            if d.contains(norm_spec(t - c, n) as i32) {
                let w = choose|w: int| 0 <= w < d.len() && d[w] == norm_spec(t - c, n) as i32;
            }
        }
        lemma_count_true_zero(u);
    } else {
        let d0 = d.drop_last();
        let last = d.last();
        assert(d =~= d0.push(last));
        assert(d0.no_duplicates());
        assert(0 <= last < m);
        let v = Seq::new(m as nat, |t: int| d0.contains(norm_spec(t - c, n) as i32));
        let pos = norm_spec(last + c, n);
        lemma_normalize_periodic(last + c, 0, n);
        lemma_norm_add_norm(last + c, -c, n);
        lemma_norm_small(last as int, n);
        assert(norm_spec(pos - c, n) == last as int);
        assert(u[pos]) by {
            assert(d[d.len() - 1] == last);
            assert(d.contains(norm_spec(pos - c, n) as i32));
        }
        assert(!v[pos]) by {
            if d0.contains(norm_spec(pos - c, n) as i32) {
                let w = choose|w: int| 0 <= w < d0.len() && d0[w] == last;
                assert(d[w] == d[d.len() - 1]);
            }
        }
        assert forall|t: int| 0 <= t < m && t != pos implies u[t] == v[t] by {
            lemma_normalize_periodic(t - c, 0, n);
            assert(norm_spec(t - c, n) != last as int) by {
                if norm_spec(t - c, n) == last as int {
                    lemma_norm_inj(t - c, pos - c, n);
                }
            }
            if u[t] {
                let w = choose|w: int| 0 <= w < d.len() && d[w] == norm_spec(t - c, n) as i32;
                assert(w < d0.len());
                assert(d0[w] == d[w]);
                assert(d0.contains(norm_spec(t - c, n) as i32));
            }
            if v[t] {
                let w = choose|w: int| 0 <= w < d0.len() && d0[w] == norm_spec(t - c, n) as i32;
                assert(d[w] == d0[w]);
                assert(d.contains(norm_spec(t - c, n) as i32));
            }
        }
        lemma_count_true_one_diff(u, v, pos);
        lemma_count_row(d0, n, c);
    }
}

/// The column-count lemma: each residue of a duplicate-free set is hit
/// exactly once when column `c + 1` is scanned downward.
pub proof fn lemma_count_col(d: Seq<i32>, n: int, c: int)
    requires
        n >= 1,
        m_of(n) <= 0x7fffffff,
        in_range(d, n),
        d.no_duplicates(),
    ensures
        count_true(Seq::new(m_of(n) as nat, |i: int| d.contains(norm_spec(c - i, n) as i32)))
            == d.len(),
    decreases d.len(),
{
    let m = m_of(n);
    lemma_m_pos(n);
    let u = Seq::new(m as nat, |i: int| d.contains(norm_spec(c - i, n) as i32));
    if d.len() == 0 {
        assert forall|t: int| 0 <= t < u.len() implies !u[t] by {
            if d.contains(norm_spec(c - t, n) as i32) {
                let w = choose|w: int| 0 <= w < d.len() && d[w] == norm_spec(c - t, n) as i32;
            }
        }
        lemma_count_true_zero(u);
    } else {
        let d0 = d.drop_last();
        let last = d.last();
        assert(d =~= d0.push(last));
        assert(d0.no_duplicates());
        assert(0 <= last < m);
        let v = Seq::new(m as nat, |i: int| d0.contains(norm_spec(c - i, n) as i32));
        let pos = norm_spec(c - last, n);
        lemma_normalize_periodic(c - last, 0, n);
        lemma_norm_sub_norm(c, c - last, n);
        lemma_norm_small(last as int, n);
        assert(norm_spec(c - pos, n) == last as int);
        assert(u[pos]) by {
            assert(d[d.len() - 1] == last);
            assert(d.contains(norm_spec(c - pos, n) as i32));
        }
        assert(!v[pos]) by {
            if d0.contains(norm_spec(c - pos, n) as i32) {
                let w = choose|w: int| 0 <= w < d0.len() && d0[w] == last;
                assert(d[w] == d[d.len() - 1]);
            }
        }
        assert forall|t: int| 0 <= t < m && t != pos implies u[t] == v[t] by {
            lemma_normalize_periodic(c - t, 0, n);
            assert(norm_spec(c - t, n) != last as int) by {
                if norm_spec(c - t, n) == last as int {
                    lemma_norm_inj(c - t, c - pos, n);
                }
            }
            if u[t] {
                let w = choose|w: int| 0 <= w < d.len() && d[w] == norm_spec(c - t, n) as i32;
                assert(w < d0.len());
                assert(d0[w] == d[w]);
                assert(d0.contains(norm_spec(c - t, n) as i32));
            }
            if v[t] {
                let w = choose|w: int| 0 <= w < d0.len() && d0[w] == norm_spec(c - t, n) as i32;
                assert(d[w] == d0[w]);
                assert(d.contains(norm_spec(c - t, n) as i32));
            }
        }
        lemma_count_true_one_diff(u, v, pos);
        lemma_count_col(d0, n, c);
    }
}

/// Convert a vector of residues to its characteristic boolean vector of
/// length `m`; for duplicate-free input the count of `true` entries equals
/// the input length.
fn i32vec_to_boolvec(v: Vec<i32>, n: i32) -> (ret: Vec<bool>)
    requires
        1 <= n <= 46340,
        forall|t: int| 0 <= t < v@.len() ==> 0 <= #[trigger] v@[t] < m_of(n as int),
        v@.no_duplicates(),
    ensures
        ret@.len() == m_of(n as int),
        forall|t: int| 0 <= t < m_of(n as int) ==> ret@[t] == v@.contains(t as i32),
        count_true(ret@) == v@.len(),
{
    let ghost nn = n as int;
    let ghost mm = m_of(nn);
    proof {
        assert(m_of(nn) <= 0x7fffffff) by (nonlinear_arith)
            requires
                1 <= nn <= 46340,
        ;
        lemma_m_pos(nn);
    }
    let m = n * (n - 1) + 1;
    let mut ret: Vec<bool> = Vec::new();
    while ret.len() < m as usize
        invariant
            ret@.len() <= m as usize,
            forall|t: int| 0 <= t < ret@.len() ==> !(#[trigger] ret@[t]),
        decreases m as usize - ret@.len(),
    {
        ret.push(false);
    }
    proof {
        lemma_count_true_zero(ret@);
        assert forall|t: int| 0 <= t < mm implies ret@[t] == v@.take(0).contains(t as i32) by {
            if v@.take(0).contains(t as i32) {
                let w = choose|w: int| 0 <= w < 0 && v@.take(0)[w] == t as i32;
            }
        }
    }
    let mut idx: usize = 0;
    while idx < v.len()
        invariant
            0 <= idx <= v@.len(),
            1 <= n <= 46340,
            nn == n as int,
            mm == m_of(nn),
            1 <= mm <= 0x7fffffff,
            ret@.len() == mm,
            forall|t: int| 0 <= t < v@.len() ==> 0 <= #[trigger] v@[t] < mm,
            v@.no_duplicates(),
            forall|t: int|
                0 <= t < mm ==> #[trigger] ret@[t] == v@.take(idx as int).contains(t as i32),
            count_true(ret@) == idx,
        decreases v@.len() - idx,
    {
        let x = v[idx];
        let ghost pre = ret@;
        proof {
            assert(!v@.take(idx as int).contains(x)) by {
                if v@.take(idx as int).contains(x) {
                    let w = choose|w: int| 0 <= w < idx as int && v@.take(idx as int)[w] == x;
                    assert(v@[w] == v@[idx as int]);
                }
            }
            assert(!pre[x as int]);
        }
        ret.set(x as usize, true);
        proof {
            lemma_count_true_update(pre, x as int, true);
            assert(v@.take(idx as int + 1) =~= v@.take(idx as int).push(x));
            assert forall|t: int| 0 <= t < mm implies #[trigger] ret@[t] == v@.take(
                idx as int + 1,
            ).contains(t as i32) by {
                let taken = v@.take(idx as int);
                let ext = v@.take(idx as int + 1);
                if t == x as int {
                    assert(ext[idx as int] == x);
                    assert(ext.contains(t as i32));
                } else {
                    assert(t as i32 as int == t);
                    assert(ret@[t] == pre[t]);
                    if ext.contains(t as i32) {
                        let w = choose|w: int| 0 <= w < ext.len() && ext[w] == t as i32;
                        assert(w < idx as int);
                        assert(taken[w] == t as i32);
                        assert(taken.contains(t as i32));
                    }
                    if taken.contains(t as i32) {
                        let w = choose|w: int| 0 <= w < taken.len() && taken[w] == t as i32;
                        assert(ext[w] == t as i32);
                        assert(ext.contains(t as i32));
                    }
                }
            }
        }
        idx = idx + 1;
    }
    proof {
        assert(v@.take(v@.len() as int) =~= v@);
    }
    ret
}

/// Find a `(n*(n-1)+1, n, 1)` symmetric design whose `i`-th block never
/// contains element `i`, derived from a difference set by cyclic translation.
/// Only `3 <= n <= 12` is supported; outside that range the result is `None`
/// without a search. The all-false diagonal is re-validated before the
/// matrix is returned.
pub fn find_sbibd(n: i32) -> (r: Option<Vec<Vec<bool>>>)
    ensures
        (r is Some) == (sbibd_spec(n as int) is Some),
        r matches Some(a) ==> a.deep_view() == sbibd_spec(n as int).unwrap() && sbibd_props(
            a.deep_view(),
            n as int,
        ),
{
    if n < 3 || n > 12 {
        return None;
    }
    let ghost nn = n as int;
    let ghost mm = m_of(nn);
    proof {
        assert(mm == n * (n - 1) + 1 && mm <= 133) by (nonlinear_arith)
            requires
                nn == n as int && 3 <= nn <= 12 && mm == m_of(nn),
        ;
    }
    let ds = find_diffset(n);
    if ds.is_none() {
        return None;
    }
    let d = ds.unwrap();
    let ghost dv = d@;
    let m = n * (n - 1) + 1;
    // re-validate the self-exclusion guarantee: a set containing m - 1 would
    // put node i into its own block after the +1 translation offset
    let mut has = false;
    let mut idx: usize = 0;
    while idx < d.len()
        invariant
            0 <= idx <= dv.len(),
            d@ == dv,
            m == mm,
            mm == m_of(nn),
            1 <= mm <= 133,
            has == (exists|w: int| 0 <= w < idx as int && dv[w] == (mm - 1) as i32),
        decreases dv.len() - idx,
    {
        if d[idx] == m - 1 {
            has = true;
            proof {
                assert(dv[idx as int] == (mm - 1) as i32);
            }
        }
        idx = idx + 1;
    }
    if has {
        proof {
            let w = choose|w: int| 0 <= w < dv.len() && dv[w] == (mm - 1) as i32;
            assert(dv.contains((mm - 1) as i32));
        }
        return None;
    }
    proof {
        assert(!dv.contains((mm - 1) as i32)) by {
            if dv.contains((mm - 1) as i32) {
                let w = choose|w: int| 0 <= w < dv.len() && dv[w] == (mm - 1) as i32;
            }
        }
    }
    let mut rows: Vec<Vec<bool>> = Vec::new();
    let mut i: i32 = 0;
    while i < m
        invariant
            0 <= i <= mm,
            3 <= n <= 12,
            nn == n as int,
            mm == m_of(nn),
            mm <= 133,
            m == mm,
            d@ == dv,
            is_diffset(dv, nn),
            rows@.len() == i as int,
            forall|w: int|
                0 <= w < i as int ==> #[trigger] rows@[w]@ == sbibd_row(dv, nn, w) && count_true(
                    rows@[w]@,
                ) == nn,
        decreases mm - i,
    {
        let mut translated: Vec<i32> = Vec::new();
        let mut s: usize = 0;
        proof {
            lemma_trans_distinct(dv, nn, i as int);
        }
        while s < d.len()
            invariant
                0 <= s <= dv.len(),
                d@ == dv,
                3 <= n <= 12,
                nn == n as int,
                mm == m_of(nn),
                mm <= 133,
                0 <= i < mm,
                is_diffset(dv, nn),
                translated@.len() == s,
                forall|w: int|
                    0 <= w < s as int ==> #[trigger] translated@[w] == trans_seq(dv, nn, i as int)[w],
            decreases dv.len() - s,
        {
            let t = normalize(d[s] + i + 1, n);
            translated.push(t);
            s = s + 1;
        }
        proof {
            assert(translated@ =~= trans_seq(dv, nn, i as int));
            lemma_trans_distinct(dv, nn, i as int);
        }
        let row = i32vec_to_boolvec(translated, n);
        proof {
            assert(row@ =~= sbibd_row(dv, nn, i as int));
        }
        rows.push(row);
        i = i + 1;
    }
    proof {
        let mat = rows.deep_view();
        assert(mat =~~= sbibd_matrix(dv, nn));
        assert(diffset_spec(nn) matches Some(dd) && dd == dv);
        // diagonal: entry (i, i) asks for residue m - 1, which was rejected
        assert forall|w: int| 0 <= w < mat.len() implies !(#[trigger] mat[w])[w] by {
            lemma_row_entry(dv, nn, w, w);
            lemma_m_pos(nn);
            lemma_normalize_periodic(-1, 1, nn);
            lemma_norm_small(mm - 1, nn);
            assert(norm_spec(w - w - 1, nn) == mm - 1);
        }
        // columns: scanning column j hits each translated residue once
        assert forall|j: int| 0 <= j < mm implies count_true(col_of(mat, j)) == nn by {
            assert forall|w: int| 0 <= w < mm implies col_of(mat, j)[w] == dv.contains(
                norm_spec((j - 1) - w, nn) as i32,
            ) by {
                lemma_row_entry(dv, nn, w, j);
                assert(mat[w][j] == sbibd_row(dv, nn, w)[j]);
            }
            lemma_count_col(dv, nn, j - 1);
            assert(col_of(mat, j) =~= Seq::new(
                mm as nat,
                |w: int| dv.contains(norm_spec((j - 1) - w, nn) as i32),
            ));
        }
        assert(sbibd_props(mat, nn));
    }
    Some(rows)
}

} // verus!
