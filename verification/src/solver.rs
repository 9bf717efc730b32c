//! The recovery-depth solver: given an affinity matrix, a primary node and an
//! erasure pattern, compute the minimum-over-parity, maximum-over-placement
//! worst-case number of sequential recovery rounds, or the unrecoverable
//! sentinel.

use crate::arith::m_of;
use crate::combs::{
    combs_from, combs_of, generate_rcombs, lemma_combs_from_props,
    lemma_strictly_increasing_no_dup, strictly_increasing,
};
use crate::counting::{count_true, lemma_count_true_bounds, lemma_count_true_update};
use crate::diffset::col_of;
use vstd::prelude::*;

verus! {

/// Sentinel for an unrecoverable erasure pattern: larger than any reachable
/// depth, which is bounded by the node count.
pub const INFTY: i32 = 99999999;

/// Number of entries of the visited vector that are still unvisited.
pub open spec fn count_false(met: Seq<bool>) -> int {
    met.len() - count_true(met)
}

pub open spec fn max_int(x: int, y: int) -> int {
    if x >= y {
        x
    } else {
        y
    }
}

pub open spec fn min_int(x: int, y: int) -> int {
    if x <= y {
        x
    } else {
        y
    }
}

/// The rows among the first `upto` whose entry in column `j` is true, in
/// increasing order.
pub open spec fn col_idx_upto(a: Seq<Seq<bool>>, j: int, upto: int) -> Seq<i32>
    decreases upto,
{
    if upto <= 0 {
        Seq::empty()
    } else {
        col_idx_upto(a, j, upto - 1) + if a[upto - 1][j] {
            seq![(upto - 1) as i32]
        } else {
            Seq::empty()
        }
    }
}

/// The rows covering column `j`: the candidate parity holders of node `j`.
pub open spec fn col_idx(a: Seq<Seq<bool>>, j: int) -> Seq<i32> {
    col_idx_upto(a, j, a.len() as int)
}

/// The columns among the first `upto` whose entry in row `r` is true: the
/// members of parity `r`, in increasing order.
pub open spec fn row_idx_upto(a: Seq<Seq<bool>>, r: int, upto: int) -> Seq<i32>
    decreases upto,
{
    if upto <= 0 {
        Seq::empty()
    } else {
        row_idx_upto(a, r, upto - 1) + if a[r][upto - 1] {
            seq![(upto - 1) as i32]
        } else {
            Seq::empty()
        }
    }
}

/// The surviving entries of a placement: those not in the erasure set, in
/// placement order.
pub open spec fn alive_of(pl: Seq<i32>, erased: Seq<i32>) -> Seq<i32>
    decreases pl.len(),
{
    if pl.len() == 0 {
        Seq::empty()
    } else {
        alive_of(pl.drop_last(), erased) + if erased.contains(pl.last()) {
            Seq::empty()
        } else {
            seq![pl.last()]
        }
    }
}

/// Parity `parity` recovers `primary` directly: it survives, and none of the
/// other erased nodes is among its members.
pub open spec fn direct_ok(parity: i32, primary: i32, a: Seq<Seq<bool>>, erased: Seq<i32>) -> bool {
    !erased.contains(parity) && (forall|t: int|
        0 <= t < erased.len() ==> #[trigger] erased[t] == primary || !a[parity as int][erased[t] as int])
}

/// Worst-case recovery depth of `primary`, with `met` the visited set of the
/// current path (`primary` already marked) and `depth` the current round.
pub open spec fn solve_spec(
    primary: i32,
    n: i32,
    p: i32,
    a: Seq<Seq<bool>>,
    erased: Seq<i32>,
    met: Seq<bool>,
    depth: int,
) -> int
    decreases count_false(met), 6int, 0int,
{
    if !erased.contains(primary) {
        depth
    } else {
        placements_max(
            primary,
            n,
            p,
            a,
            erased,
            met,
            depth,
            combs_of(col_idx(a, primary as int), p + 1),
        )
    }
}

/// Maximum placement depth over the enumerated placements: the adversarial
/// worst case.
pub open spec fn placements_max(
    primary: i32,
    n: i32,
    p: i32,
    a: Seq<Seq<bool>>,
    erased: Seq<i32>,
    met: Seq<bool>,
    depth: int,
    pls: Seq<Seq<i32>>,
) -> int
    decreases count_false(met), 5int, pls.len(),
{
    if pls.len() == 0 {
        -(INFTY as int)
    } else if pls.len() == 1 {
        placement_depth(primary, n, p, a, erased, met, depth, pls.last())
    } else {
        max_int(
            placements_max(primary, n, p, a, erased, met, depth, pls.drop_last()),
            placement_depth(primary, n, p, a, erased, met, depth, pls.last()),
        )
    }
}

/// Depth achievable under one placement: the current round if some parity
/// recovers `primary` directly, else the best surviving parity route.
pub open spec fn placement_depth(
    primary: i32,
    n: i32,
    p: i32,
    a: Seq<Seq<bool>>,
    erased: Seq<i32>,
    met: Seq<bool>,
    depth: int,
    pl: Seq<i32>,
) -> int
    decreases count_false(met), 4int, 0int,
{
    if exists|t: int| 0 <= t < pl.len() && direct_ok(#[trigger] pl[t], primary, a, erased) {
        depth
    } else {
        parities_min(primary, n, p, a, erased, met, depth, alive_of(pl, erased))
    }
}

/// Minimum contributed depth over the surviving parities: the best single
/// parity route wins.
pub open spec fn parities_min(
    primary: i32,
    n: i32,
    p: i32,
    a: Seq<Seq<bool>>,
    erased: Seq<i32>,
    met: Seq<bool>,
    depth: int,
    alv: Seq<i32>,
) -> int
    decreases count_false(met), 3int, alv.len(),
{
    if alv.len() == 0 {
        INFTY as int
    } else if alv.len() == 1 {
        parity_depth(primary, n, p, a, erased, met, depth, alv.last())
    } else {
        min_int(
            parities_min(primary, n, p, a, erased, met, depth, alv.drop_last()),
            parity_depth(primary, n, p, a, erased, met, depth, alv.last()),
        )
    }
}

/// Depth contributed by one surviving parity: unrecoverable if it depends on
/// an already-visited node other than `primary`, else the maximum over the
/// recoveries of all of its members.
pub open spec fn parity_depth(
    primary: i32,
    n: i32,
    p: i32,
    a: Seq<Seq<bool>>,
    erased: Seq<i32>,
    met: Seq<bool>,
    depth: int,
    parity: i32,
) -> int
    decreases count_false(met), 2int, 0int,
{
    let members = row_idx_upto(a, parity as int, a[parity as int].len() as int);
    if exists|t: int|
        0 <= t < members.len() && #[trigger] members[t] != primary && met[members[t] as int] {
        INFTY as int
    } else {
        members_max(primary, n, p, a, erased, met, depth, members)
    }
}

/// Maximum depth over the dependencies of one parity: all members must be
/// available before the parity can certify `primary`.
pub open spec fn members_max(
    primary: i32,
    n: i32,
    p: i32,
    a: Seq<Seq<bool>>,
    erased: Seq<i32>,
    met: Seq<bool>,
    depth: int,
    mem: Seq<i32>,
) -> int
    decreases count_false(met), 1int, mem.len(),
{
    if mem.len() == 0 {
        -(INFTY as int)
    } else if mem.len() == 1 {
        member_depth(primary, n, p, a, erased, met, depth, mem.last())
    } else {
        max_int(
            members_max(primary, n, p, a, erased, met, depth, mem.drop_last()),
            member_depth(primary, n, p, a, erased, met, depth, mem.last()),
        )
    }
}

/// Depth needed for one member: nothing for a visited node, the current
/// round for a present one, and a recursive recovery one round deeper for an
/// erased one.
pub open spec fn member_depth(
    primary: i32,
    n: i32,
    p: i32,
    a: Seq<Seq<bool>>,
    erased: Seq<i32>,
    met: Seq<bool>,
    depth: int,
    i: i32,
) -> int
    decreases count_false(met), 0int, 0int,
        when 0 <= i < met.len()
        via member_depth_dec
{
    if met[i as int] {
        -(INFTY as int)
    } else if erased.contains(i) {
        solve_spec(i, n, p, a, erased, met.update(i as int, true), depth + 1)
    } else {
        depth
    }
}

#[via_fn]
proof fn member_depth_dec(
    primary: i32,
    n: i32,
    p: i32,
    a: Seq<Seq<bool>>,
    erased: Seq<i32>,
    met: Seq<bool>,
    depth: int,
    i: i32,
) {
    lemma_count_true_bounds(met);
    if 0 <= i < met.len() && !met[i as int] {
        lemma_count_true_update(met, i as int, true);
        lemma_count_true_bounds(met.update(i as int, true));
    }
}

/// The preconditions of a recovery query: a square `m x m` matrix with
/// exactly `n` candidate parity holders per node, a valid primary, and an
/// erasure pattern of at most `p < n` in-range nodes.
pub open spec fn solver_pre(
    primary: i32,
    n: i32,
    p: i32,
    a: Seq<Seq<bool>>,
    erased: Seq<i32>,
) -> bool {
    &&& 1 <= n <= 46340
    &&& 0 <= primary < m_of(n as int)
    &&& 0 <= p
    &&& p + 1 <= n
    &&& erased.len() <= p
    &&& (forall|t: int| 0 <= t < erased.len() ==> 0 <= #[trigger] erased[t] < m_of(n as int))
    &&& a.len() == m_of(n as int)
    &&& (forall|i: int| 0 <= i < a.len() ==> (#[trigger] a[i]).len() == m_of(n as int))
    &&& (forall|j: int| 0 <= j < m_of(n as int) ==> count_true(col_of(a, j)) == n)
}

/// The visited set at the start of a query: only the primary is marked.
pub open spec fn met_init(primary: i32, n: i32) -> Seq<bool> {
    Seq::new(m_of(n as int) as nat, |t: int| t == primary as int)
}

/// The depth reported for a whole query: the search starts with only the
/// primary visited, at round 1.
pub open spec fn solve_erasure_spec(
    primary: i32,
    n: i32,
    p: i32,
    a: Seq<Seq<bool>>,
    erased: Seq<i32>,
) -> int {
    solve_spec(primary, n, p, a, erased, met_init(primary, n), 1)
}

/// The covering-row list has as many entries as the column has true cells.
proof fn lemma_col_idx_len(a: Seq<Seq<bool>>, j: int, upto: int)
    requires
        0 <= upto,
    ensures
        col_idx_upto(a, j, upto).len() == count_true(Seq::new(upto as nat, |i: int| a[i][j])),
    decreases upto,
{
    let c = Seq::new(upto as nat, |i: int| a[i][j]);
    if upto == 0 {
        assert(c.len() == 0);
    } else {
        lemma_col_idx_len(a, j, upto - 1);
        assert(c.drop_last() =~= Seq::new((upto - 1) as nat, |i: int| a[i][j]));
    }
}

/// The covering-row list is strictly increasing, within range, and lists
/// only rows that cover column `j`.
proof fn lemma_col_idx_props(a: Seq<Seq<bool>>, j: int, upto: int)
    requires
        0 <= upto <= 0x7fffffff,
    ensures
        strictly_increasing(col_idx_upto(a, j, upto)),
        forall|w: int|
            0 <= w < col_idx_upto(a, j, upto).len() ==> {
                let x = #[trigger] col_idx_upto(a, j, upto)[w];
                0 <= x < upto && a[x as int][j]
            },
    decreases upto,
{
    if upto > 0 {
        lemma_col_idx_props(a, j, upto - 1);
    }
}

/// The member list is strictly increasing, within range, lists only columns
/// covered by row `r`, and contains every such column.
proof fn lemma_row_idx_props(a: Seq<Seq<bool>>, r: int, upto: int)
    requires
        0 <= upto <= 0x7fffffff,
    ensures
        strictly_increasing(row_idx_upto(a, r, upto)),
        forall|w: int|
            0 <= w < row_idx_upto(a, r, upto).len() ==> {
                let x = #[trigger] row_idx_upto(a, r, upto)[w];
                0 <= x < upto && a[r][x as int]
            },
        forall|x: i32|
            0 <= x < upto && a[r][x as int] ==> #[trigger] row_idx_upto(a, r, upto).contains(x),
    decreases upto,
{
    if upto > 0 {
        lemma_row_idx_props(a, r, upto - 1);
        assert forall|x: i32| 0 <= x < upto && a[r][x as int] implies #[trigger] row_idx_upto(
            a,
            r,
            upto,
        ).contains(x) by {
            let cur = row_idx_upto(a, r, upto);
            let prev = row_idx_upto(a, r, upto - 1);
            if x < upto - 1 {
                assert(prev.contains(x));
                let w = choose|w: int| 0 <= w < prev.len() && prev[w] == x;
                assert(cur[w] == x);
                assert(cur.contains(x));
            } else {
                assert(x as int == upto - 1);
                assert(a[r][upto - 1]);
                assert(cur[cur.len() - 1] == x);
                assert(cur.contains(x));
            }
        }
    }
}

/// Every surviving entry comes from the placement and is not erased.
proof fn lemma_alive_props(pl: Seq<i32>, erased: Seq<i32>)
    ensures
        forall|w: int|
            0 <= w < alive_of(pl, erased).len() ==> pl.contains(
                #[trigger] alive_of(pl, erased)[w],
            ) && !erased.contains(alive_of(pl, erased)[w]),
    decreases pl.len(),
{
    if pl.len() > 0 {
        lemma_alive_props(pl.drop_last(), erased);
        assert forall|w: int| 0 <= w < alive_of(pl, erased).len() implies pl.contains(
            #[trigger] alive_of(pl, erased)[w],
        ) && !erased.contains(alive_of(pl, erased)[w]) by {
            let prev = alive_of(pl.drop_last(), erased);
            if w < prev.len() {
                let w2 = choose|w2: int| 0 <= w2 < pl.drop_last().len() && pl.drop_last()[w2]
                    == prev[w];
                assert(pl[w2] == prev[w]);
            } else {
                assert(pl[pl.len() - 1] == pl.last());
            }
        }
    }
}

/// If nothing survives, every placement entry is erased.
proof fn lemma_alive_empty(pl: Seq<i32>, erased: Seq<i32>)
    requires
        alive_of(pl, erased).len() == 0,
    ensures
        forall|t: int| 0 <= t < pl.len() ==> erased.contains(#[trigger] pl[t]),
    decreases pl.len(),
{
    if pl.len() > 0 {
        lemma_alive_empty(pl.drop_last(), erased);
        assert forall|t: int| 0 <= t < pl.len() implies erased.contains(#[trigger] pl[t]) by {
            if t < pl.len() - 1 {
                assert(pl.drop_last()[t] == pl[t]);
            } else {
                assert(pl[t] == pl.last());
            }
        }
    }
}

/// A placement of `p + 1` distinct nodes cannot be wholly contained in an
/// erasure set of at most `p` nodes: some parity always survives.
proof fn lemma_alive_nonempty(pl: Seq<i32>, erased: Seq<i32>)
    requires
        strictly_increasing(pl),
        erased.len() < pl.len(),
    ensures
        alive_of(pl, erased).len() >= 1,
{
    broadcast use vstd::seq_lib::seq_to_set_is_finite;

    if alive_of(pl, erased).len() == 0 {
        lemma_alive_empty(pl, erased);
        lemma_strictly_increasing_no_dup(pl);
        pl.unique_seq_to_set();
        erased.lemma_cardinality_of_set();
        assert(pl.to_set().subset_of(erased.to_set())) by {
            assert forall|x: i32| pl.to_set().contains(x) implies erased.to_set().contains(x) by {
                let t = choose|t: int| 0 <= t < pl.len() && pl[t] == x;
                assert(erased.contains(pl[t]));
            }
        }
        vstd::set_lib::lemma_len_subset(pl.to_set(), erased.to_set());
    }
}

/// The enumeration of completions is never empty while enough elements
/// remain.
proof fn lemma_combs_nonempty(elems: Seq<i32>, r: int, prefix: Seq<i32>, start: int)
    requires
        0 <= start <= elems.len(),
        prefix.len() <= r,
        r - prefix.len() <= elems.len() - start,
    ensures
        combs_from(elems, r, prefix, start).len() >= 1,
    decreases r - prefix.len(), elems.len() - start,
{
    if prefix.len() >= r {
    } else {
        lemma_combs_nonempty(elems, r, prefix.push(elems[start]), start + 1);
    }
}

/// The deep view of a nested boolean vector indexes to the row views.
proof fn lemma_deep_row_bool(a: &Vec<Vec<bool>>, i: int)
    requires
        0 <= i < a@.len(),
    ensures
        a.deep_view()[i] == a@[i]@,
{
    assert(a.deep_view()[i] =~= a@[i]@);
}

/// The deep view of a nested integer vector indexes to the row views.
proof fn lemma_deep_row_i32(a: &Vec<Vec<i32>>, i: int)
    requires
        0 <= i < a@.len(),
    ensures
        a.deep_view()[i] == a@[i]@,
{
    assert(a.deep_view()[i] =~= a@[i]@);
}

/// Linear scan for membership.
fn vec_contains(v: &Vec<i32>, x: i32) -> (b: bool)
    ensures
        b == v@.contains(x),
{
    let mut idx: usize = 0;
    while idx < v.len()
        invariant
            0 <= idx <= v@.len(),
            forall|w: int| 0 <= w < idx as int ==> v@[w] != x,
        decreases v@.len() - idx,
    {
        if v[idx] == x {
            return true;
        }
        idx = idx + 1;
    }
    proof {
        if v@.contains(x) {
            let w = choose|w: int| 0 <= w < v@.len() && v@[w] == x;
        }
    }
    false
}

/// Copy a boolean vector element by element.
fn copy_bool_vec(v: &Vec<bool>) -> (r: Vec<bool>)
    ensures
        r@ == v@,
{
    let mut r: Vec<bool> = Vec::new();
    let mut i: usize = 0;
    while i < v.len()
        invariant
            i <= v.len(),
            r@ == v@.take(i as int),
        decreases v.len() - i,
    {
        r.push(v[i]);
        proof {
            assert(r@ =~= v@.take(i as int + 1));
        }
        i = i + 1;
    }
    proof {
        assert(v@.take(v@.len() as int) =~= v@);
    }
    r
}

/// The facts shared by every loop of one solver activation.
spec fn loop_ctx(
    primary: i32,
    n: i32,
    p: i32,
    av: Seq<Seq<bool>>,
    ev: Seq<i32>,
    met1: Seq<bool>,
    depth: int,
    mm: int,
) -> bool {
    &&& solver_pre(primary, n, p, av, ev)
    &&& mm == m_of(n as int)
    &&& 1 <= mm <= 0x7fffffff
    &&& met1.len() == mm
    &&& met1[primary as int]
    &&& 1 <= depth
    &&& depth + count_false(met1) <= mm
}

/// The recursive recovery search: `met` is the visited set of the current
/// path (`primary` not yet marked), `depth` the current round.
#[verifier::loop_isolation(false)]
#[verifier::rlimit(100)]
fn solve_erasure_search(
    primary: i32,
    n: i32,
    p: i32,
    affinity: &Vec<Vec<bool>>,
    erased: &Vec<i32>,
    met: Vec<bool>,
    depth: i32,
) -> (r: i32)
    requires
        solver_pre(primary, n, p, affinity.deep_view(), erased@),
        met@.len() == m_of(n as int),
        !met@[primary as int],
        1 <= depth,
        depth + count_false(met@) <= m_of(n as int) + 1,
    ensures
        r as int == solve_spec(
            primary,
            n,
            p,
            affinity.deep_view(),
            erased@,
            met@.update(primary as int, true),
            depth as int,
        ),
    decreases count_false(met@),
{
    let ghost nn = n as int;
    let ghost mm = m_of(nn);
    let ghost av = affinity.deep_view();
    let ghost ev = erased@;
    let ghost met0 = met@;
    let ghost met1 = met@.update(primary as int, true);
    proof {
        assert(mm <= 0x7fffffff) by (nonlinear_arith)
            requires
                nn == n as int && 1 <= nn <= 46340 && mm == m_of(nn),
        ;
        crate::arith::lemma_m_pos(nn);
        lemma_count_true_update(met0, primary as int, true);
        lemma_count_true_bounds(met0);
        lemma_count_true_bounds(met1);
        assert(loop_ctx(primary, n, p, av, ev, met1, depth as int, mm));
    }
    let m = n * (n - 1) + 1;
    let mut met = met;
    met.set(primary as usize, true);
    if !vec_contains(erased, primary) {
        return depth;
    }
    // the candidate parity holders of the primary: the column at primary
    let mut cands: Vec<i32> = Vec::new();
    let mut i: usize = 0;
    while i < m as usize
        invariant
            loop_ctx(primary, n, p, av, ev, met1, depth as int, mm),
            av == affinity.deep_view(),
            m == mm,
            0 <= i as int <= mm,
            cands@ == col_idx_upto(av, primary as int, i as int),
        decreases mm - i as int,
    {
        proof {
            lemma_deep_row_bool(affinity, i as int);
        }
        if affinity[i][primary as usize] {
            cands.push(i as i32);
        }
        proof {
            assert(cands@ =~= col_idx_upto(av, primary as int, i as int + 1));
        }
        i = i + 1;
    }
    proof {
        lemma_col_idx_len(av, primary as int, mm);
        lemma_col_idx_props(av, primary as int, mm);
        assert(col_of(av, primary as int) =~= Seq::new(mm as nat, |w: int| av[w][primary as int]));
        assert(cands@.len() == nn);
        assert(cands@ == col_idx(av, primary as int));
    }
    let placements = generate_rcombs(&cands, p + 1);
    let ghost pls = combs_of(cands@, p as int + 1);
    proof {
        assert(placements.deep_view() == pls);
        lemma_combs_from_props(cands@, p as int + 1, Seq::empty(), 0);
        lemma_combs_nonempty(cands@, p as int + 1, Seq::empty(), 0);
        assert(pls.len() == placements@.len());
        assert forall|q: int, t: int|
            0 <= q < pls.len() && 0 <= t < pls[q].len() implies 0 <= #[trigger] pls[q][t] < mm
            && av[pls[q][t] as int][primary as int] by {
            assert(Seq::<i32>::empty().contains(pls[q][t]) || cands@.contains(pls[q][t]));
            let w = choose|w: int| 0 <= w < cands@.len() && cands@[w] == pls[q][t];
        }
    }
    let mut best: i32 = 0;
    let mut pi: usize = 0;
    while pi < placements.len()
        invariant
            loop_ctx(primary, n, p, av, ev, met1, depth as int, mm),
            av == affinity.deep_view(),
            ev == erased@,
            met@ == met1,
            m == mm,
            ev.contains(primary),
            met0.len() == mm,
            count_false(met0) == count_false(met1) + 1,
            placements.deep_view() == pls,
            pls == combs_of(col_idx(av, primary as int), p as int + 1),
            pls.len() == placements@.len(),
            pls.len() >= 1,
            0 <= pi as int <= pls.len(),
            forall|q: int|
                0 <= q < pls.len() ==> (#[trigger] pls[q]).len() == p as int + 1
                    && strictly_increasing(pls[q]),
            forall|q: int, t: int|
                0 <= q < pls.len() && 0 <= t < pls[q].len() ==> 0 <= #[trigger] pls[q][t] < mm
                    && av[pls[q][t] as int][primary as int],
            pi as int >= 1 ==> best as int == placements_max(
                primary,
                n,
                p,
                av,
                ev,
                met1,
                depth as int,
                pls.take(pi as int),
            ),
        decreases pls.len() - pi as int,
    {
        let pl: &Vec<i32> = &placements[pi];
        proof {
            lemma_deep_row_i32(&placements, pi as int);
            assert(pl@ == pls[pi as int]);
        }
        // direct recovery: a surviving parity none of whose members (other
        // than the primary) are erased
        let mut direct = false;
        let mut w: usize = 0;
        while w < pl.len()
            invariant
                loop_ctx(primary, n, p, av, ev, met1, depth as int, mm),
                av == affinity.deep_view(),
                ev == erased@,
                0 <= w as int <= pl@.len(),
                forall|t: int| 0 <= t < pl@.len() ==> 0 <= #[trigger] pl@[t] < mm,
                direct == (exists|t: int|
                    0 <= t < w as int && direct_ok(#[trigger] pl@[t], primary, av, ev)),
            decreases pl@.len() - w as int,
        {
            let parity = pl[w];
            if !vec_contains(erased, parity) {
                let mut allok = true;
                let mut e: usize = 0;
                while e < erased.len()
                    invariant
                        loop_ctx(primary, n, p, av, ev, met1, depth as int, mm),
                        av == affinity.deep_view(),
                        ev == erased@,
                        0 <= e as int <= ev.len(),
                        0 <= parity < mm,
                        allok == (forall|t: int|
                            0 <= t < e as int ==> #[trigger] ev[t] == primary || !av[parity as int][ev[t] as int]),
                    decreases ev.len() - e as int,
                {
                    let ei = erased[e];
                    if ei != primary {
                        proof {
                            lemma_deep_row_bool(affinity, parity as int);
                        }
                        if affinity[parity as usize][ei as usize] {
                            allok = false;
                        }
                    }
                    e = e + 1;
                }
                if allok {
                    direct = true;
                    proof {
                        assert(direct_ok(pl@[w as int], primary, av, ev));
                    }
                }
            }
            w = w + 1;
        }
        let pd: i32;
        if direct {
            pd = depth;
        } else {
            // no direct route: consider the surviving parities of this
            // placement and take the best of their contributed depths
            let mut alive: Vec<i32> = Vec::new();
            let mut w2: usize = 0;
            while w2 < pl.len()
                invariant
                    loop_ctx(primary, n, p, av, ev, met1, depth as int, mm),
                    ev == erased@,
                    0 <= w2 as int <= pl@.len(),
                    alive@ == alive_of(pl@.take(w2 as int), ev),
                decreases pl@.len() - w2 as int,
            {
                let x = pl[w2];
                proof {
                    assert(pl@.take(w2 as int + 1).drop_last() =~= pl@.take(w2 as int));
                    assert(pl@.take(w2 as int + 1).last() == pl@[w2 as int]);
                }
                if !vec_contains(erased, x) {
                    alive.push(x);
                }
                w2 = w2 + 1;
            }
            proof {
                assert(pl@.take(pl@.len() as int) =~= pl@);
                assert(alive@ == alive_of(pl@, ev));
                lemma_alive_nonempty(pl@, ev);
                lemma_alive_props(pl@, ev);
                assert forall|t: int| 0 <= t < alive@.len() implies 0 <= #[trigger] alive@[t] < mm
                    && av[alive@[t] as int][primary as int] && !ev.contains(alive@[t]) by {
                    let w3 = choose|w3: int| 0 <= w3 < pl@.len() && pl@[w3] == alive@[t];
                }
            }
            let mut bestp: i32 = 0;
            let mut api: usize = 0;
            while api < alive.len()
                invariant
                    loop_ctx(primary, n, p, av, ev, met1, depth as int, mm),
                    av == affinity.deep_view(),
                    ev == erased@,
                    met@ == met1,
                    m == mm,
                    0 <= api as int <= alive@.len(),
                    alive@.len() >= 1,
                    alive@ == alive_of(pl@, ev),
                    count_false(met0) == count_false(met1) + 1,
                    forall|t: int|
                        0 <= t < alive@.len() ==> 0 <= #[trigger] alive@[t] < mm && av[alive@[t] as int][primary as int]
                            && !ev.contains(alive@[t]),
                    api as int >= 1 ==> bestp as int == parities_min(
                        primary,
                        n,
                        p,
                        av,
                        ev,
                        met1,
                        depth as int,
                        alive@.take(api as int),
                    ),
                decreases alive@.len() - api as int,
            {
                let parity = alive[api];
                // the members of this parity: its row
                let mut members: Vec<i32> = Vec::new();
                let mut t: usize = 0;
                while t < m as usize
                    invariant
                        loop_ctx(primary, n, p, av, ev, met1, depth as int, mm),
                        av == affinity.deep_view(),
                        m == mm,
                        0 <= t as int <= mm,
                        0 <= parity < mm,
                        members@ == row_idx_upto(av, parity as int, t as int),
                    decreases mm - t as int,
                {
                    proof {
                        lemma_deep_row_bool(affinity, parity as int);
                    }
                    if affinity[parity as usize][t] {
                        members.push(t as i32);
                    }
                    proof {
                        assert(members@ =~= row_idx_upto(av, parity as int, t as int + 1));
                    }
                    t = t + 1;
                }
                proof {
                    lemma_row_idx_props(av, parity as int, mm);
                    assert(av[parity as int].len() == mm);
                    assert(av[parity as int][primary as int]);
                    assert(members@.contains(primary));
                    assert(members@.len() >= 1);
                }
                // a parity that depends on an already-visited node other
                // than the primary signals an unrecoverable cycle
                let mut badmet = false;
                let mut w3: usize = 0;
                while w3 < members.len()
                    invariant
                        loop_ctx(primary, n, p, av, ev, met1, depth as int, mm),
                        met@ == met1,
                        0 <= w3 as int <= members@.len(),
                        0 <= parity < mm,
                        members@ == row_idx_upto(av, parity as int, mm),
                        forall|t2: int| 0 <= t2 < members@.len() ==> 0 <= #[trigger] members@[t2] < mm,
                        badmet == (exists|t2: int|
                            0 <= t2 < w3 as int && #[trigger] members@[t2] != primary
                                && met1[members@[t2] as int]),
                    decreases members@.len() - w3 as int,
                {
                    let mi = members[w3];
                    if mi != primary {
                        if met[mi as usize] {
                            badmet = true;
                            proof {
                                assert(members@[w3 as int] != primary && met1[members@[w3 as int] as int]);
                            }
                        }
                    }
                    w3 = w3 + 1;
                }
                let pdep: i32;
                if badmet {
                    pdep = INFTY;
                } else {
                    // each still-erased member must be recovered first; the
                    // parity is ready when the deepest dependency is
                    let mut bestm: i32 = 0;
                    let mut wi: usize = 0;
                    while wi < members.len()
                        invariant
                            loop_ctx(primary, n, p, av, ev, met1, depth as int, mm),
                            av == affinity.deep_view(),
                            ev == erased@,
                            met@ == met1,
                            count_false(met0) == count_false(met1) + 1,
                            0 <= wi as int <= members@.len(),
                            members@.len() >= 1,
                            forall|t2: int|
                                0 <= t2 < members@.len() ==> 0 <= #[trigger] members@[t2] < mm,
                            wi as int >= 1 ==> bestm as int == members_max(
                                primary,
                                n,
                                p,
                                av,
                                ev,
                                met1,
                                depth as int,
                                members@.take(wi as int),
                            ),
                        decreases members@.len() - wi as int,
                    {
                        let mi = members[wi];
                        let mv: i32;
                        if met[mi as usize] {
                            mv = -INFTY;
                        } else if vec_contains(erased, mi) {
                            let metc = copy_bool_vec(&met);
                            proof {
                                lemma_count_true_update(met1, mi as int, true);
                                lemma_count_true_bounds(met1.update(mi as int, true));
                                lemma_count_true_bounds(met1);
                                assert(count_false(metc@) < count_false(met0));
                                assert(count_false(met1) >= 1);
                            }
                            mv = solve_erasure_search(mi, n, p, affinity, erased, metc, depth + 1);
                        } else {
                            mv = depth;
                        }
                        proof {
                            assert(mv as int == member_depth(
                                primary,
                                n,
                                p,
                                av,
                                ev,
                                met1,
                                depth as int,
                                members@[wi as int],
                            ));
                            assert(members@.take(wi as int + 1).drop_last() =~= members@.take(
                                wi as int,
                            ));
                            assert(members@.take(wi as int + 1).last() == members@[wi as int]);
                        }
                        if wi == 0 {
                            bestm = mv;
                        } else if mv > bestm {
                            bestm = mv;
                        }
                        wi = wi + 1;
                    }
                    proof {
                        assert(members@.take(members@.len() as int) =~= members@);
                    }
                    pdep = bestm;
                }
                proof {
                    assert(pdep as int == parity_depth(
                        primary,
                        n,
                        p,
                        av,
                        ev,
                        met1,
                        depth as int,
                        parity,
                    ));
                    assert(alive@.take(api as int + 1).drop_last() =~= alive@.take(api as int));
                    assert(alive@.take(api as int + 1).last() == alive@[api as int]);
                }
                if api == 0 {
                    bestp = pdep;
                } else if pdep < bestp {
                    bestp = pdep;
                }
                api = api + 1;
            }
            proof {
                assert(alive@.take(alive@.len() as int) =~= alive@);
            }
            pd = bestp;
        }
        proof {
            assert(pd as int == placement_depth(
                primary,
                n,
                p,
                av,
                ev,
                met1,
                depth as int,
                pls[pi as int],
            ));
            assert(pls.take(pi as int + 1).drop_last() =~= pls.take(pi as int));
            assert(pls.take(pi as int + 1).last() == pls[pi as int]);
        }
        if pi == 0 {
            best = pd;
        } else if pd > best {
            best = pd;
        }
        pi = pi + 1;
    }
    proof {
        assert(pls.take(pls.len() as int) =~= pls);
        assert(best as int == solve_spec(primary, n, p, av, ev, met1, depth as int));
    }
    best
}

/// Check whether an object whose primary is `primary` can be recovered given
/// the erased node list: the result is either a finite round count or the
/// sentinel `INFTY`.
#[verifier::loop_isolation(false)]
pub fn solve_erasure(
    primary: i32,
    n: i32,
    p: i32,
    affinity: &Vec<Vec<bool>>,
    erased: &Vec<i32>,
) -> (r: i32)
    requires
        solver_pre(primary, n, p, affinity.deep_view(), erased@),
    ensures
        r as int == solve_erasure_spec(primary, n, p, affinity.deep_view(), erased@),
{
    let ghost nn = n as int;
    let ghost mm = m_of(nn);
    proof {
        assert(mm <= 0x7fffffff) by (nonlinear_arith)
            requires
                nn == n as int && 1 <= nn <= 46340 && mm == m_of(nn),
        ;
        crate::arith::lemma_m_pos(nn);
    }
    let m = n * (n - 1) + 1;
    let mut met: Vec<bool> = Vec::new();
    while met.len() < m as usize
        invariant
            met@.len() <= m as usize,
            forall|t: int| 0 <= t < met@.len() ==> !(#[trigger] met@[t]),
        decreases m as usize - met@.len(),
    {
        met.push(false);
    }
    proof {
        crate::counting::lemma_count_true_zero(met@);
        assert(met@.update(primary as int, true) =~= met_init(primary, n));
    }
    solve_erasure_search(primary, n, p, affinity, erased, met, 1)
}

} // verus!
