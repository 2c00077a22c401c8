//! Size and offset arithmetic shared by the pool and its blocks.
use vstd::prelude::*;

verus! {

/// `size` rounded up to the next multiple of `align`.
pub open spec fn round_up(size: int, align: int) -> int {
    ((size + align - 1) / align) * align
}

/// Rounding up stays within one `align` above `size` and lands on a multiple of `align`.
pub proof fn lemma_round_up(size: int, align: int)
    requires
        size >= 0,
        align > 0,
    ensures
        size <= round_up(size, align) < size + align,
        round_up(size, align) % align == 0,
        round_up(size, align) == size + align - 1 - (size + align - 1) % align,
{
    let t = size + align - 1;
    vstd::arithmetic::div_mod::lemma_fundamental_div_mod(t, align);
    vstd::arithmetic::div_mod::lemma_mod_multiples_basic(t / align, align);
    assert(round_up(size, align) == (t / align) * align);
    assert((t / align) * align == align * (t / align)) by (nonlinear_arith);
}

/// A multiple of `m` stays a multiple of `m` when a multiple of `m` is added or taken away.
pub proof fn lemma_mod_sum(x: int, y: int, m: int)
    requires
        m > 0,
        x % m == 0,
        y % m == 0,
    ensures
        (x + y) % m == 0,
        (x - y) % m == 0,
{
    vstd::arithmetic::div_mod::lemma_fundamental_div_mod(x, m);
    vstd::arithmetic::div_mod::lemma_fundamental_div_mod(y, m);
    let qx = x / m;
    let qy = y / m;
    assert(x + y == m * (qx + qy)) by (nonlinear_arith)
        requires x == m * qx, y == m * qy;
    assert(x - y == m * (qx - qy)) by (nonlinear_arith)
        requires x == m * qx, y == m * qy;
    vstd::arithmetic::div_mod::lemma_mod_multiples_basic(qx + qy, m);
    vstd::arithmetic::div_mod::lemma_mod_multiples_basic(qx - qy, m);
    assert((qx + qy) * m == m * (qx + qy)) by (nonlinear_arith);
    assert((qx - qy) * m == m * (qx - qy)) by (nonlinear_arith);
}

/// A multiple of `n` is a multiple of every divisor `m` of `n`.
pub proof fn lemma_mod_divisor(x: int, n: int, m: int)
    requires
        m > 0,
        n > 0,
        x % n == 0,
        n % m == 0,
    ensures
        x % m == 0,
{
    vstd::arithmetic::div_mod::lemma_fundamental_div_mod(x, n);
    vstd::arithmetic::div_mod::lemma_fundamental_div_mod(n, m);
    let q = x / n;
    let r = n / m;
    assert(x == m * (r * q)) by (nonlinear_arith)
        requires x == n * q, n == m * r;
    vstd::arithmetic::div_mod::lemma_mod_multiples_basic(r * q, m);
    assert((r * q) * m == m * (r * q)) by (nonlinear_arith);
}

/// Two multiples of `m` that differ are at least `m` apart.
pub proof fn lemma_multiples_apart(x: int, y: int, m: int)
    requires
        m > 0,
        x % m == 0,
        y % m == 0,
        x < y,
    ensures
        x + m <= y,
{
    lemma_mod_sum(y, x, m);
    let d = y - x;
    vstd::arithmetic::div_mod::lemma_fundamental_div_mod(d, m);
    assert(d == m * (d / m));
    assert(d / m >= 1) by (nonlinear_arith)
        requires d == m * (d / m), d > 0, m > 0;
    assert(m * (d / m) >= m) by (nonlinear_arith)
        requires d / m >= 1, m > 0;
}

/// The quotient of a multiple of `m` by `m`, times `m`, gives the multiple back.
pub proof fn lemma_div_exact(x: int, m: int)
    requires
        m > 0,
        x % m == 0,
    ensures
        (x / m) * m == x,
{
    vstd::arithmetic::div_mod::lemma_fundamental_div_mod(x, m);
    assert((x / m) * m == m * (x / m)) by (nonlinear_arith);
}

/// Dividing a bigger multiple by `m` gives a bigger quotient.
pub proof fn lemma_div_monotone(x: int, y: int, m: int)
    requires
        m > 0,
        0 <= x <= y,
    ensures
        0 <= x / m <= y / m,
{
    vstd::arithmetic::div_mod::lemma_div_is_ordered(x, y, m);
    vstd::arithmetic::div_mod::lemma_div_pos_is_pos(x, m);
}

/// Adding one `m` to a multiple of `m` adds one to the quotient.
pub proof fn lemma_div_step(x: int, m: int)
    requires
        m > 0,
        x >= 0,
        x % m == 0,
    ensures
        (x + m) / m == x / m + 1,
        (x + m) % m == 0,
{
    vstd::arithmetic::div_mod::lemma_div_plus_one(x, m);
    lemma_mod_sum(x, m, m);
    vstd::arithmetic::div_mod::lemma_mod_self_0(m);
}

} // verus!
