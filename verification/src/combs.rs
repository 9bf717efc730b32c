//! Enumeration of all r-element sub-sequences of an integer sequence, in
//! lexicographic order of the selected indices.

use vstd::prelude::*;

verus! {

/// `s` is strictly increasing.
pub open spec fn strictly_increasing(s: Seq<i32>) -> bool {
    forall|i: int, j: int| 0 <= i < j < s.len() ==> s[i] < s[j]
}

/// All completions of `prefix` to an `r`-element selection, picking further
/// elements of `elems` at indices `>= start` in increasing index order.
/// Completions that pick an earlier index come first, which yields the
/// lexicographic enumeration.
pub open spec fn combs_from(elems: Seq<i32>, r: int, prefix: Seq<i32>, start: int) -> Seq<
    Seq<i32>,
>
    decreases r - prefix.len(), elems.len() - start,
        when prefix.len() <= r && 0 <= start <= elems.len()
{
    if prefix.len() >= r {
        seq![prefix]
    } else if start >= elems.len() {
        Seq::empty()
    } else {
        combs_from(elems, r, prefix.push(elems[start]), start + 1) + combs_from(
            elems,
            r,
            prefix,
            start + 1,
        )
    }
}

/// The full enumeration of the `r`-element combinations of `elems`.
pub open spec fn combs_of(elems: Seq<i32>, r: int) -> Seq<Seq<i32>> {
    combs_from(elems, r, Seq::empty(), 0)
}

/// Every enumerated selection has length `r`; if `elems` is strictly
/// increasing and every element of `prefix` is below every remaining element
/// of `elems`, each selection extends `prefix`, stays strictly increasing,
/// and draws its new elements from `elems`.
pub proof fn lemma_combs_from_props(elems: Seq<i32>, r: int, prefix: Seq<i32>, start: int)
    requires
        0 <= prefix.len() <= r,
        0 <= start <= elems.len(),
        strictly_increasing(elems),
        strictly_increasing(prefix),
        forall|i: int, j: int|
            0 <= i < prefix.len() && start <= j < elems.len() ==> prefix[i] < elems[j],
    ensures
        forall|q: int|
            #![trigger combs_from(elems, r, prefix, start)[q]]
            0 <= q < combs_from(elems, r, prefix, start).len() ==> {
                let c = combs_from(elems, r, prefix, start)[q];
                c.len() == r && strictly_increasing(c) && (forall|t: int|
                    #![trigger c[t]]
                    0 <= t < c.len() ==> prefix.contains(c[t]) || elems.contains(c[t]))
            },
    decreases r - prefix.len(), elems.len() - start,
{
    let all = combs_from(elems, r, prefix, start);
    if prefix.len() >= r {
        assert(all == seq![prefix]);
        assert forall|t: int| 0 <= t < prefix.len() implies prefix.contains(prefix[t]) by {}
    } else if start >= elems.len() {
    } else {
        let ext = prefix.push(elems[start]);
        assert(strictly_increasing(ext)) by {
            assert(forall|i: int|
                0 <= i < prefix.len() ==> ext[i] == prefix[i] && prefix[i] < elems[start]);
        }
        assert(forall|i: int, j: int|
            0 <= i < ext.len() && start + 1 <= j < elems.len() ==> ext[i] < elems[j]);
        lemma_combs_from_props(elems, r, ext, start + 1);
        lemma_combs_from_props(elems, r, prefix, start + 1);
        let left = combs_from(elems, r, ext, start + 1);
        let right = combs_from(elems, r, prefix, start + 1);
        assert(all == left + right);
        assert(elems.contains(elems[start]));
        assert forall|q: int| 0 <= q < all.len() implies {
            let c = #[trigger] all[q];
            c.len() == r && strictly_increasing(c) && (forall|t: int|
                #![trigger c[t]]
                0 <= t < c.len() ==> prefix.contains(c[t]) || elems.contains(c[t]))
        } by {
            let c = all[q];
            if q < left.len() {
                assert(c == left[q]);
                assert forall|t: int| #![trigger c[t]] 0 <= t < c.len() implies prefix.contains(
                    c[t],
                ) || elems.contains(c[t]) by {
                    if ext.contains(c[t]) {
                        let w = choose|w: int| 0 <= w < ext.len() && ext[w] == c[t];
                        if w < prefix.len() {
                            assert(prefix[w] == c[t]);
                        } else {
                            assert(c[t] == elems[start]);
                        }
                    }
                }
            } else {
                assert(c == right[q - left.len()]);
            }
        }
    }
}

/// A strictly increasing sequence has no duplicates.
pub proof fn lemma_strictly_increasing_no_dup(s: Seq<i32>)
    requires
        strictly_increasing(s),
    ensures
        s.no_duplicates(),
{
}

/// Copy an integer vector element by element.
fn copy_i32_vec(v: &Vec<i32>) -> (r: Vec<i32>)
    ensures
        r@ == v@,
{
    let mut r: Vec<i32> = Vec::new();
    let mut i: usize = 0;
    while i < v.len()
        invariant
            i <= v.len(),
            r@ == v@.take(i as int),
        decreases v.len() - i,
    {
        r.push(v[i]);
        proof {
            assert(r@ =~= v@.take(i as int + 1));
        }
        i = i + 1;
    }
    proof {
        assert(v@.take(v@.len() as int) =~= v@);
    }
    r
}

/// Recursive enumeration core: `comb[..pos]` holds the selection so far, and
/// every completion drawing indices `>= start` is appended to `result`.
fn generate_combinations(
    elems: &Vec<i32>,
    r: usize,
    comb: &mut Vec<i32>,
    result: &mut Vec<Vec<i32>>,
    pos: usize,
    start: usize,
)
    requires
        old(comb).len() == r,
        pos <= r,
        start <= elems.len(),
    ensures
        final(comb).len() == r,
        final(comb)@.take(pos as int) == old(comb)@.take(pos as int),
        final(result).deep_view() == old(result).deep_view() + combs_from(
            elems@,
            r as int,
            old(comb)@.take(pos as int),
            start as int,
        ),
    decreases r - pos,
{
    let ghost prefix = comb@.take(pos as int);
    if pos == r {
        let c = copy_i32_vec(comb);
        proof {
            assert(comb@.take(pos as int) =~= comb@);
            assert(combs_from(elems@, r as int, prefix, start as int) == seq![prefix]);
        }
        result.push(c);
        proof {
            assert(result.deep_view() =~~= old(result).deep_view() + seq![prefix]);
        }
        return ;
    }
    let ghost result0 = result.deep_view();
    let n = elems.len();
    let mut i: usize = start;
    while i < n
        invariant
            start <= i <= n,
            n == elems.len(),
            pos < r,
            comb.len() == r,
            comb@.take(pos as int) == prefix,
            result0 + combs_from(elems@, r as int, prefix, start as int) == result.deep_view()
                + combs_from(elems@, r as int, prefix, i as int),
        decreases n - i,
    {
        let ghost result_pre = result.deep_view();
        comb.set(pos, elems[i]);
        proof {
            assert(comb@.take(pos as int) =~= prefix);
            assert(comb@.take(pos as int + 1) =~= prefix.push(elems@[i as int]));
        }
        generate_combinations(elems, r, comb, result, pos + 1, i + 1);
        proof {
            assert(comb@.take(pos as int) =~= comb@.take(pos as int + 1).take(pos as int));
            let ext = prefix.push(elems@[i as int]);
            assert(combs_from(elems@, r as int, prefix, i as int) == combs_from(
                elems@,
                r as int,
                ext,
                i as int + 1,
            ) + combs_from(elems@, r as int, prefix, i as int + 1));
            assert(result0 + combs_from(elems@, r as int, prefix, start as int)
                == result.deep_view() + combs_from(elems@, r as int, prefix, i as int + 1)) by {
                assert(result_pre + (combs_from(elems@, r as int, ext, i as int + 1) + combs_from(
                    elems@,
                    r as int,
                    prefix,
                    i as int + 1,
                )) =~= (result_pre + combs_from(elems@, r as int, ext, i as int + 1)) + combs_from(
                    elems@,
                    r as int,
                    prefix,
                    i as int + 1,
                ));
            }
        }
        i = i + 1;
    }
    proof {
        assert(combs_from(elems@, r as int, prefix, n as int) == Seq::<Seq<i32>>::empty());
        assert(result.deep_view() + Seq::<Seq<i32>>::empty() =~= result.deep_view());
        assert(result0 + combs_from(elems@, r as int, prefix, start as int) =~= result.deep_view());
    }
}

/// Generate all r-combinations of a given sequence of `i32` elements,
/// preserving the element order of the source within each combination and
/// listing the combinations in lexicographic order of selected indices.
pub fn generate_rcombs(elems: &Vec<i32>, r: i32) -> (result: Vec<Vec<i32>>)
    requires
        0 <= r,
        r as int <= elems@.len(),
    ensures
        result.deep_view() == combs_of(elems@, r as int),
{
    let rr = r as usize;
    let mut comb: Vec<i32> = Vec::new();
    while comb.len() < rr
        invariant
            comb.len() <= rr,
        decreases rr - comb.len(),
    {
        comb.push(0);
    }
    let mut result: Vec<Vec<i32>> = Vec::new();
    proof {
        assert(comb@.take(0) =~= Seq::<i32>::empty());
    }
    generate_combinations(elems, rr, &mut comb, &mut result, 0, 0);
    proof {
        assert(Seq::<Seq<i32>>::empty() + combs_of(elems@, r as int) =~= combs_of(
            elems@,
            r as int,
        ));
    }
    result
}

} // verus!
