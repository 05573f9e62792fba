//! Exact integer arithmetic for parimutuel payouts.
//!
//! The payout formula is `floor(stake * total_pool / winning_pool)` over
//! 128-bit pool sizes, so the product needs more than 128 bits. `mul_div`
//! computes the floored quotient exactly, processing the multiplier bit by
//! bit so that no intermediate value outgrows `u128`.

use vstd::prelude::*;

verus! {

use vstd::arithmetic::div_mod::lemma_fundamental_div_mod_converse;

/// Quotient and remainder of `a * b` by `d`, computed without any
/// intermediate wider than `u128`. Requires `a <= d` so that the quotient
/// (and every partial quotient) is bounded by `b`.
fn mul_div_rec(a: u128, b: u128, d: u128) -> (res: (u128, u128))
    requires
        0 < d,
        a <= d,
    ensures
        a * b == res.0 * d + res.1,
        res.1 < d,
        res.0 <= b,
    decreases b,
{
    if b == 0 {
        (0u128, 0u128)
    } else {
        let half = b / 2;
        let (q2, r2) = mul_div_rec(a, half, d);
        // a * b == 2 * (a * half) + (b % 2) * a
        assert(a * b == 2 * (a * half) + (b % 2) * a) by (nonlinear_arith)
            requires
                half == b / 2,
                b > 0,
        ;
        let mut q: u128 = q2 * 2;
        assert(2 * (a * half) == q * d + 2 * r2) by (nonlinear_arith)
            requires
                a * half == q2 * d + r2,
                q == 2 * q2,
        ;
        let mut r: u128;
        // Double the remainder, carrying into the quotient if it reaches d.
        if r2 >= d - r2 {
            assert((q + 1) * d + (2 * r2 - d) == q * d + 2 * r2) by (nonlinear_arith);
            assert(q + 1 <= b && 2 * r2 - d < d) by (nonlinear_arith)
                requires
                    2 * (a * half) == (q + 1) * d + (2 * r2 - d),
                    2 * r2 >= d,
                    r2 < d,
                    0 < d,
                    a <= d,
                    half <= b / 2,
                    b > 0,
            ;
            r = r2 - (d - r2);
            q = q + 1;
        } else {
            r = r2 + r2;
        }
        assert(2 * (a * half) == q * d + r && r < d);
        // Add the low bit's contribution, again carrying if needed.
        if b % 2 == 1 {
            assert((b % 2) * a == a) by (nonlinear_arith)
                requires
                    b % 2 == 1,
            ;
            assert(a * b == q * d + r + a);
            if r >= d - a {
                assert((q + 1) * d + (r + a - d) == q * d + r + a) by (nonlinear_arith);
                assert(q + 1 <= b) by (nonlinear_arith)
                    requires
                        a * b == (q + 1) * d + (r + a - d),
                        r + a >= d,
                        r < d,
                        a <= d,
                        0 < d,
                        b > 0,
                ;
                r = r - (d - a);
                q = q + 1;
            } else {
                r = r + a;
            }
        } else {
            assert((b % 2) * a == 0) by (nonlinear_arith)
                requires
                    b % 2 == 0,
            ;
            assert(a * b == q * d + r);
        }
        assert(a * b == q * d + r && r < d);
        assert(q <= b) by (nonlinear_arith)
            requires
                a * b == q * d + r,
                r >= 0,
                a <= d,
                0 < d,
        ;
        (q, r)
    }
}

/// `floor(a * b / d)`, exact over the unbounded integers.
pub fn mul_div(a: u128, b: u128, d: u128) -> (q: u128)
    requires
        0 < d,
        a <= d,
    ensures
        q == (a * b) / (d as int),
        q <= b,
{
    let (q, r) = mul_div_rec(a, b, d);
    proof {
        lemma_fundamental_div_mod_converse(a * b, d as int, q as int, r as int);
    }
    q
}

/// Floored scaling is superadditive in the numerator: splitting a stake in
/// two never increases the combined payout.
pub proof fn lemma_scaled_div_subadditive(x: int, y: int, c: int, d: int)
    requires
        0 < d,
        0 <= x,
        0 <= y,
        0 <= c,
    ensures
        (x * c) / d + (y * c) / d <= ((x + y) * c) / d,
{
    let q1 = (x * c) / d;
    let r1 = (x * c) % d;
    let q2 = (y * c) / d;
    let r2 = (y * c) % d;
    assert(x * c == q1 * d + r1 && 0 <= r1 < d) by (nonlinear_arith)
        requires
            0 < d,
            0 <= x * c,
            q1 == (x * c) / d,
            r1 == (x * c) % d,
    ;
    assert(y * c == q2 * d + r2 && 0 <= r2 < d) by (nonlinear_arith)
        requires
            0 < d,
            0 <= y * c,
            q2 == (y * c) / d,
            r2 == (y * c) % d,
    ;
    assert(0 <= x * c && 0 <= y * c) by (nonlinear_arith)
        requires
            0 <= x,
            0 <= y,
            0 <= c,
    ;
    assert((x + y) * c == (q1 + q2) * d + (r1 + r2)) by (nonlinear_arith)
        requires
            x * c == q1 * d + r1,
            y * c == q2 * d + r2,
    ;
    assert(((x + y) * c) / d >= q1 + q2) by (nonlinear_arith)
        requires
            (x + y) * c == (q1 + q2) * d + (r1 + r2),
            0 <= r1 + r2,
            r1 < d,
            r2 < d,
            0 < d,
    ;
}

} // verus!
