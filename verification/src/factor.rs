//! Magnitude factorization: decompose a magnitude `n` into
//! `outer * inner + remainder` with `outer == floor(sqrt(n))`, so that a
//! loop of `outer` iterations adding `inner` symbols each, plus `remainder`
//! leftover symbols, encodes `n` in O(sqrt(n)) symbols instead of O(n).

use vstd::prelude::*;
use vstd::arithmetic::div_mod::lemma_fundamental_div_mod;

verus! {

/// `r` is the integer square root of `n`.
pub open spec fn is_isqrt(n: int, r: int) -> bool {
    0 <= r && r * r <= n && n < (r + 1) * (r + 1)
}

/// The integer square root of `n`, as a spec-level function.
pub open spec fn spec_isqrt(n: nat) -> nat
    decreases n,
{
    if n == 0 {
        0
    } else {
        let p = spec_isqrt((n - 1) as nat);
        if (p + 1) * (p + 1) <= n {
            (p + 1) as nat
        } else {
            p
        }
    }
}

pub proof fn lemma_spec_isqrt(n: nat)
    ensures
        is_isqrt(n as int, spec_isqrt(n) as int),
    decreases n,
{
    if n == 0 {
    } else {
        lemma_spec_isqrt((n - 1) as nat);
        let p = spec_isqrt((n - 1) as nat);
        if (p + 1) * (p + 1) <= n {
            assert((p + 1) * (p + 1) + 1 <= ((p + 1) + 1) * ((p + 1) + 1)) by (nonlinear_arith)
                requires 0 <= p;
        } else {
        }
    }
}

proof fn lemma_isqrt_unique(n: int, r1: int, r2: int)
    requires
        is_isqrt(n, r1),
        is_isqrt(n, r2),
    ensures
        r1 == r2,
{
    if r1 < r2 {
        assert((r1 + 1) * (r1 + 1) <= r2 * r2) by (nonlinear_arith)
            requires 0 <= r1 + 1 <= r2;
    }
    if r2 < r1 {
        assert((r2 + 1) * (r2 + 1) <= r1 * r1) by (nonlinear_arith)
            requires 0 <= r2 + 1 <= r1;
    }
}

/// Integer square root by linear search; the magnitudes handled here are at
/// most 257, so the search is at most 17 steps.
pub fn isqrt(n: u16) -> (r: u16)
    requires
        n <= 257,
    ensures
        r as int == spec_isqrt(n as nat),
        is_isqrt(n as int, r as int),
        r <= 16,
{
    let mut r: u16 = 0;
    loop
        invariant
            n <= 257,
            r * r <= n,
            r <= 16,
        ensures
            r <= 16,
            r * r <= n,
            n < (r + 1) * (r + 1),
        decreases 257 - r * r,
    {
        let rp = r + 1;
        assert(rp * rp <= 289) by (nonlinear_arith)
            requires 1 <= rp <= 17;
        if rp * rp <= n {
            assert(r * r < rp * rp) by (nonlinear_arith)
                requires 0 <= r, rp == r + 1;
            r = rp;
            assert(r <= 16) by (nonlinear_arith)
                requires (r as int) * (r as int) <= 257, 0 <= r;
        } else {
            break;
        }
    }
    proof {
        lemma_spec_isqrt(n as nat);
        lemma_isqrt_unique(n as int, r as int, spec_isqrt(n as nat) as int);
    }
    r
}

/// Spec-level remainder of `a` after removing the square of its root:
/// `a - outer*outer`, in `[0, 2*outer]`.
pub open spec fn sqrt_excess(a: nat) -> int {
    a - spec_isqrt(a) * spec_isqrt(a)
}

/// The inner loop count of the factorization of `a`.
pub open spec fn f_inner(a: nat) -> int {
    spec_isqrt(a) + sqrt_excess(a) / (spec_isqrt(a) as int)
}

/// The leftover symbol count of the factorization of `a`.
pub open spec fn f_rem(a: nat) -> int {
    sqrt_excess(a) % (spec_isqrt(a) as int)
}

/// The factorization identity at the spec level: for a positive magnitude
/// the outer count times the inner count plus the remainder gives the
/// magnitude back, and the remainder is a proper remainder.
pub proof fn lemma_factorization(a: nat)
    requires
        a >= 1,
    ensures
        spec_isqrt(a) >= 1,
        f_inner(a) >= 0,
        spec_isqrt(a) * f_inner(a) + f_rem(a) == a,
        0 <= f_rem(a) < spec_isqrt(a),
{
    lemma_spec_isqrt(a);
    let outer = spec_isqrt(a) as int;
    assert(outer >= 1) by (nonlinear_arith)
        requires
            outer * outer <= a,
            (a as int) < (outer + 1) * (outer + 1),
            a >= 1,
            outer >= 0;
    let ex = sqrt_excess(a);
    assert(ex >= 0);
    vstd::arithmetic::div_mod::lemma_mod_division_less_than_divisor(ex, outer);
    vstd::arithmetic::div_mod::lemma_div_pos_is_pos(ex, outer);
    lemma_fundamental_div_mod(ex, outer);
    assert(outer * f_inner(a) + f_rem(a) == a) by (nonlinear_arith)
        requires
            outer * (ex / outer) + (ex % outer) == ex,
            f_inner(a) == outer + ex / outer,
            f_rem(a) == ex % outer,
            ex == a - outer * outer;
}

/// Decomposes a magnitude into `(remainder, outer, inner)` with
/// `outer * inner + remainder == val` and `outer == floor(sqrt(val))`.
///
/// For `val >= 1` the raw excess `val - outer*outer` is at most `2*outer`,
/// so `excess % outer == outer` is impossible and no separate branch for it
/// is needed.
pub fn multiply(val: u16) -> (r: (u8, u8, u8))
    requires
        1 <= val <= 257,
    ensures
        r.1 as int == spec_isqrt(val as nat),
        r.2 as int == f_inner(val as nat),
        r.0 as int == f_rem(val as nat),
        r.1 as int * r.2 as int + r.0 as int == val,
        0 <= r.0 < r.1,
{
    let calc = isqrt(val);
    assert(calc >= 1) by (nonlinear_arith)
        requires
            (calc as int) * (calc as int) <= val as int,
            (val as int) < (calc as int + 1) * (calc as int + 1),
            val >= 1,
            calc >= 0;
    let mut offset = val - calc * calc;
    assert(offset <= 2 * calc) by (nonlinear_arith)
        requires
            (val as int) < (calc as int + 1) * (calc as int + 1),
            offset == val as int - calc as int * calc as int,
            0 <= calc;
    let inner = calc + offset / calc;
    offset = offset % calc;
    proof {
        lemma_fundamental_div_mod(sqrt_excess(val as nat), calc as int);
        assert(calc as int * f_inner(val as nat) + f_rem(val as nat) == val as int) by (nonlinear_arith)
            requires
                calc as int * (sqrt_excess(val as nat) / calc as int) + f_rem(val as nat)
                    == sqrt_excess(val as nat),
                f_inner(val as nat) == calc as int + sqrt_excess(val as nat) / calc as int,
                sqrt_excess(val as nat) == val as int - calc as int * calc as int;
    }
    (offset as u8, calc as u8, inner as u8)
}

} // verus!
