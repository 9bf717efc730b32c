//! Modular arithmetic over the modulus `m = n*(n-1) + 1`.

use vstd::prelude::*;

verus! {

/// The modulus fixed by the fault-tolerance parameter `n`: `m = n*(n-1) + 1`.
pub open spec fn m_of(n: int) -> int {
    n * (n - 1) + 1
}

/// `m_of(n)` is positive for every integer `n`.
pub proof fn lemma_m_pos(n: int)
    ensures
        m_of(n) >= 1,
{
    assert(n * (n - 1) >= 0) by (nonlinear_arith);
}

/// The residue of `x` modulo `m_of(n)`, normalized into `[0, m_of(n))`.
pub open spec fn norm_spec(x: int, n: int) -> int {
    x % m_of(n)
}

/// Normalization stays in range and is invariant under adding multiples of
/// the modulus: for all integers `x` and all `n >= 1`,
/// `norm_spec(x, n)` lies in `[0, n*(n-1)+1)` and
/// `norm_spec(x + k * m_of(n), n) == norm_spec(x, n)` for every integer `k`.
pub proof fn lemma_normalize_periodic(x: int, k: int, n: int)
    requires
        n >= 1,
    ensures
        0 <= norm_spec(x, n) < m_of(n),
        norm_spec(x + k * m_of(n), n) == norm_spec(x, n),
{
    lemma_m_pos(n);
    vstd::arithmetic::div_mod::lemma_mod_multiples_vanish(k, x, m_of(n));
    assert(m_of(n) * k == k * m_of(n)) by (nonlinear_arith);
}

/// A value already in `[0, m_of(n))` is its own normalization.
pub proof fn lemma_norm_small(v: int, n: int)
    requires
        0 <= v < m_of(n),
    ensures
        norm_spec(v, n) == v,
{
    vstd::arithmetic::div_mod::lemma_small_mod(v as nat, m_of(n) as nat);
}

/// Normalization is injective on any window shorter than the modulus:
/// if two values differ by less than `m_of(n)` and normalize alike, they are
/// equal.
pub proof fn lemma_norm_inj(a: int, b: int, n: int)
    requires
        -m_of(n) < a - b < m_of(n),
        norm_spec(a, n) == norm_spec(b, n),
    ensures
        a == b,
{
    let m = m_of(n);
    lemma_m_pos(n);
    vstd::arithmetic::div_mod::lemma_fundamental_div_mod(a, m);
    vstd::arithmetic::div_mod::lemma_fundamental_div_mod(b, m);
    let qa = a / m;
    let qb = b / m;
    assert(a - b == m * qa - m * qb);
    assert(m * qa - m * qb == m * (qa - qb)) by (nonlinear_arith);
    assert(-m < m * (qa - qb) < m);
    assert(qa == qb) by (nonlinear_arith)
        requires
            m >= 1,
            -m < m * (qa - qb) < m,
    ;
}

/// Normalizing an operand first does not change a normalized sum.
pub proof fn lemma_norm_add_norm(x: int, y: int, n: int)
    requires
        n >= 1,
    ensures
        norm_spec(norm_spec(x, n) + y, n) == norm_spec(x + y, n),
{
    let m = m_of(n);
    lemma_m_pos(n);
    vstd::arithmetic::div_mod::lemma_fundamental_div_mod(x, m);
    let q = x / m;
    assert(norm_spec(x, n) + y == (x + y) + (-q) * m) by (nonlinear_arith)
        requires
            x == m * q + norm_spec(x, n),
    ;
    lemma_normalize_periodic(x + y, -q, n);
}

/// Normalizing the subtrahend first does not change a normalized difference.
pub proof fn lemma_norm_sub_norm(y: int, x: int, n: int)
    requires
        n >= 1,
    ensures
        norm_spec(y - norm_spec(x, n), n) == norm_spec(y - x, n),
{
    let m = m_of(n);
    lemma_m_pos(n);
    vstd::arithmetic::div_mod::lemma_fundamental_div_mod(x, m);
    let q = x / m;
    assert(y - norm_spec(x, n) == (y - x) + q * m) by (nonlinear_arith)
        requires
            x == m * q + norm_spec(x, n),
    ;
    lemma_normalize_periodic(y - x, q, n);
}

/// Normalize `x` into `[0, n*(n-1)+1)`.
pub fn normalize(x: i32, n: i32) -> (r: i32)
    requires
        1 <= n <= 46340,
    ensures
        r == norm_spec(x as int, n as int),
        0 <= r < m_of(n as int),
{
    proof {
        assert((n as int) * (n as int - 1) + 1 <= 0x7fffffff) by (nonlinear_arith)
            requires
                1 <= n as int <= 46340,
        ;
    }
    let m = n * (n - 1) + 1;
    proof {
        lemma_m_pos(n as int);
        lemma_normalize_periodic(x as int, 0, n as int);
    }
    if x >= 0 {
        x % m
    } else {
        let y = -(x + 1);
        let s = y % m;
        proof {
            let mi = m as int;
            let yi = y as int;
            let q = yi / mi;
            vstd::arithmetic::div_mod::lemma_fundamental_div_mod(yi, mi);
            // x == -(y + 1) == -(q + 1) * m + (m - 1 - s)
            assert(x as int == (-(q + 1)) * mi + (mi - 1 - s)) by (nonlinear_arith)
                requires
                    yi == mi * q + s,
                    x as int == -yi - 1,
            ;
            lemma_normalize_periodic(mi - 1 - s, -(q + 1), n as int);
            lemma_norm_small(mi - 1 - s, n as int);
        }
        m - 1 - s
    }
}

} // verus!
