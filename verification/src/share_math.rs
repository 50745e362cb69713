//! Fixed-point share arithmetic.
//!
//! The pool converts between absolute token amounts and pool shares through
//! `floor(x * y / z)` and `ceil(x * y / z)` over `u128` operands. The product
//! `x * y` does not fit a `u128`, so the executable code runs a binary long
//! multiplication-division that carries the intermediate value as a
//! quotient/remainder pair with respect to the divisor and therefore never
//! needs an integer wider than 128 bits. The contracts state the exact
//! mathematical quotient.

use vstd::arithmetic::div_mod::{
    lemma_div_is_ordered, lemma_div_multiples_vanish, lemma_div_pos_is_pos,
    lemma_fundamental_div_mod, lemma_fundamental_div_mod_converse, lemma_hoist_over_denominator,
    lemma_mod_multiples_basic,
};
use vstd::prelude::*;

verus! {

/// Shares bought by `amount` at the price `total_value / total_shares`,
/// rounded down.
pub open spec fn shares_from_amount_down(amount: int, total_shares: int, total_value: int) -> int {
    total_shares * amount / total_value
}

/// Shares charged for `amount` at the price `total_value / total_shares`,
/// rounded up.
pub open spec fn shares_from_amount_up(amount: int, total_shares: int, total_value: int) -> int {
    (total_shares * amount + total_value - 1) / total_value
}

/// Value of `num_shares` at the price `total_value / total_shares`, rounded
/// down.
pub open spec fn amount_from_shares_down(
    num_shares: int,
    total_shares: int,
    total_value: int,
) -> int {
    total_value * num_shares / total_shares
}

/// Value of `num_shares` at the price `total_value / total_shares`, rounded
/// up.
pub open spec fn amount_from_shares_up(
    num_shares: int,
    total_shares: int,
    total_value: int,
) -> int {
    (total_value * num_shares + total_shares - 1) / total_shares
}

/// If `q * c` stays below `x`, then `q` stays below the quotient `x / c`.
pub proof fn lemma_le_quotient(q: int, c: int, x: int)
    requires
        0 < c,
        0 <= q,
        q * c <= x,
    ensures
        q <= x / c,
{
    lemma_div_multiples_vanish(q, c);
    assert(q * c == c * q) by (nonlinear_arith);
    lemma_div_is_ordered(c * q, x, c);
}

/// Folding one binary digit of the multiplier into the accumulated
/// quotient/remainder pair keeps the running identity
/// `big == q * c + r + (dq * c + dr) * y` intact and the new quotient within
/// `u128` range.
proof fn lemma_accumulate_digit(big: int, q: int, r: int, dq: int, dr: int, c: int, y: int)
    requires
        0 < c,
        0 <= q,
        0 <= r < c,
        0 <= dq,
        0 <= dr < c,
        1 <= y,
        big == q * c + r + (dq * c + dr) * y,
        big / c <= u128::MAX,
    ensures
        r + dr < c ==> q + dq <= u128::MAX && big == (q + dq) * c + (r + dr) + (dq * c + dr) * (y
            - 1),
        r + dr >= c ==> q + dq + 1 <= u128::MAX && big == (q + dq + 1) * c + (r + dr - c) + (dq * c
            + dr) * (y - 1),
{
    assert(big == (q + dq) * c + (r + dr) + (dq * c + dr) * (y - 1)) by (nonlinear_arith)
        requires
            big == q * c + r + (dq * c + dr) * y,
    ;
    assert((dq * c + dr) * (y - 1) >= 0) by (nonlinear_arith)
        requires
            0 <= dq,
            0 <= dr,
            0 < c,
            1 <= y,
    ;
    if r + dr >= c {
        assert((q + dq + 1) * c <= big) by (nonlinear_arith)
            requires
                big == (q + dq) * c + (r + dr) + (dq * c + dr) * (y - 1),
                (dq * c + dr) * (y - 1) >= 0,
                r + dr >= c,
        ;
        lemma_le_quotient(q + dq + 1, c, big);
        assert((q + dq + 1) * c + (r + dr - c) == (q + dq) * c + (r + dr)) by (nonlinear_arith);
    } else {
        assert((q + dq) * c <= big) by (nonlinear_arith)
            requires
                big == (q + dq) * c + (r + dr) + (dq * c + dr) * (y - 1),
                (dq * c + dr) * (y - 1) >= 0,
                0 <= r + dr,
        ;
        lemma_le_quotient(q + dq, c, big);
    }
}

/// Doubling the current digit `dq * c + dr` keeps the running identity intact
/// and the doubled digit quotient within `u128` range.
proof fn lemma_double_digit(big: int, q: int, r: int, dq: int, dr: int, c: int, y: int)
    requires
        0 < c,
        0 <= q,
        0 <= r < c,
        0 <= dq,
        0 <= dr < c,
        1 <= y,
        big == q * c + r + (dq * c + dr) * (2 * y),
        big / c <= u128::MAX,
    ensures
        2 * dr < c ==> 2 * dq <= u128::MAX && big == q * c + r + ((2 * dq) * c + 2 * dr) * y,
        2 * dr >= c ==> 2 * dq + 1 <= u128::MAX && big == q * c + r + ((2 * dq + 1) * c + (2 * dr
            - c)) * y,
{
    assert((dq * c + dr) * (2 * y) == (2 * (dq * c + dr)) * y) by (nonlinear_arith);
    if 2 * dr >= c {
        assert((2 * (dq * c + dr)) * y == ((2 * dq + 1) * c + (2 * dr - c)) * y) by (nonlinear_arith);
        assert((2 * dq + 1) * c <= big) by (nonlinear_arith)
            requires
                big == q * c + r + ((2 * dq + 1) * c + (2 * dr - c)) * y,
                0 <= q,
                0 <= r,
                0 < c,
                0 <= 2 * dr - c,
                0 <= 2 * dq + 1,
                1 <= y,
        ;
        lemma_le_quotient(2 * dq + 1, c, big);
    } else {
        assert((2 * (dq * c + dr)) * y == ((2 * dq) * c + 2 * dr) * y) by (nonlinear_arith);
        assert((2 * dq) * c <= big) by (nonlinear_arith)
            requires
                big == q * c + r + ((2 * dq) * c + 2 * dr) * y,
                0 <= q,
                0 <= r,
                0 < c,
                0 <= 2 * dr,
                0 <= dq,
                1 <= y,
        ;
        lemma_le_quotient(2 * dq, c, big);
    }
}

/// Exact quotient and remainder of `a * b` divided by `c`, computed without
/// any integer wider than `u128`.
pub fn mul_div_rem(a: u128, b: u128, c: u128) -> (qr: (u128, u128))
    requires
        c > 0,
        a * b / (c as int) <= u128::MAX,
    ensures
        qr.0 == a * b / (c as int),
        qr.1 == a * b % (c as int),
{
    let mut q: u128 = 0;
    let mut r: u128 = 0;
    let mut dq: u128 = a / c;
    let mut dr: u128 = a % c;
    let mut y: u128 = b;
    proof {
        lemma_fundamental_div_mod(a as int, c as int);
        assert(dq * c + dr == a) by (nonlinear_arith)
            requires
                a == c * dq + dr,
        ;
        assert((dq * c + dr) * y == a * b) by (nonlinear_arith)
            requires
                dq * c + dr == a,
                y == b,
        ;
    }
    while y > 0
        invariant
            c > 0,
            r < c,
            dr < c,
            a * b == q * c + r + (dq * c + dr) * y,
            a * b / (c as int) <= u128::MAX,
        decreases y,
    {
        let ghost big: int = a * b;
        if y % 2 == 1 {
            proof {
                lemma_accumulate_digit(big, q as int, r as int, dq as int, dr as int, c as int,
                    y as int);
            }
            if r >= c - dr {
                r = r - (c - dr);
                q = q + 1;
            } else {
                r = r + dr;
            }
            q = q + dq;
        }
        let ghost y_mid: int = y as int;
        y = y / 2;
        proof {
            // After folding the low digit, the identity holds with the halved
            // multiplier doubled back: y_mid == 2 * y + (y_mid % 2).
            assert(big == q * c + r + (dq * c + dr) * (2 * (y as int))) by (nonlinear_arith)
                requires
                    big == q * c + r + (dq * c + dr) * (y_mid - (if y_mid % 2 == 1 {
                        1int
                    } else {
                        0int
                    })),
                    y_mid - (if y_mid % 2 == 1 {
                        1int
                    } else {
                        0int
                    }) == 2 * (y as int),
            ;
        }
        if y > 0 {
            proof {
                lemma_double_digit(big, q as int, r as int, dq as int, dr as int, c as int,
                    y as int);
            }
            if dr >= c - dr {
                dr = dr - (c - dr);
                dq = 2 * dq + 1;
            } else {
                dr = dr + dr;
                dq = 2 * dq;
            }
        }
    }
    proof {
        assert(a * b == q * c + r) by (nonlinear_arith)
            requires
                a * b == q * c + r + (dq * c + dr) * y,
                y == 0,
        ;
        lemma_fundamental_div_mod_converse(a * b, c as int, q as int, r as int);
    }
    (q, r)
}

/// `floor(a * b / c)` over `u128` operands.
pub fn mul_div_floor(a: u128, b: u128, c: u128) -> (q: u128)
    requires
        c > 0,
        a * b / (c as int) <= u128::MAX,
    ensures
        q == a * b / (c as int),
{
    let qr = mul_div_rem(a, b, c);
    qr.0
}

/// The rounded-up quotient `(n + c - 1) / c` equals the rounded-down quotient,
/// plus one exactly when the division has a remainder.
pub proof fn lemma_ceil_structure(n: int, c: int)
    requires
        0 < c,
        0 <= n,
    ensures
        (n + c - 1) / c == n / c + if n % c > 0 {
            1int
        } else {
            0int
        },
{
    lemma_fundamental_div_mod(n, c);
    let q = n / c;
    let r = n % c;
    if r > 0 {
        assert(n + c - 1 == (q + 1) * c + (r - 1)) by (nonlinear_arith)
            requires
                n == c * q + r,
        ;
        lemma_fundamental_div_mod_converse(n + c - 1, c, q + 1, r - 1);
    } else {
        assert(n + c - 1 == q * c + (c - 1)) by (nonlinear_arith)
            requires
                n == c * q + r,
                r == 0,
        ;
        lemma_fundamental_div_mod_converse(n + c - 1, c, q, c - 1);
    }
}

/// `ceil(a * b / c)` over `u128` operands, written as `(a * b + c - 1) / c`.
pub fn mul_div_ceil(a: u128, b: u128, c: u128) -> (q: u128)
    requires
        c > 0,
        (a * b + c - 1) / (c as int) <= u128::MAX,
    ensures
        q == (a * b + c - 1) / (c as int),
{
    proof {
        lemma_ceil_structure(a * b, c as int);
    }
    let qr = mul_div_rem(a, b, c);
    if qr.1 > 0 {
        qr.0 + 1
    } else {
        qr.0
    }
}

/// With a factor bounded by the divisor, the quotient is bounded by the
/// other factor: `x <= z` gives `x * y / z <= y`.
pub proof fn lemma_muldiv_le(x: int, y: int, z: int)
    requires
        0 <= x <= z,
        0 < z,
        0 <= y,
    ensures
        x * y / z <= y,
{
    assert(x * y <= z * y) by (nonlinear_arith)
        requires
            0 <= x <= z,
            0 <= y,
    ;
    lemma_div_multiples_vanish(y, z);
    lemma_div_is_ordered(x * y, z * y, z);
}

/// The rounded-up counterpart: `x <= z` gives `(x * y + z - 1) / z <= y`.
pub proof fn lemma_muldiv_ceil_le(x: int, y: int, z: int)
    requires
        0 <= x <= z,
        0 < z,
        0 <= y,
    ensures
        (x * y + z - 1) / z <= y,
{
    assert(x * y <= z * y) by (nonlinear_arith)
        requires
            0 <= x <= z,
            0 <= y,
    ;
    assert(x * y >= 0) by (nonlinear_arith)
        requires
            0 <= x,
            0 <= y,
    ;
    lemma_ceil_structure(x * y, z);
    lemma_ceil_structure(z * y, z);
    lemma_div_is_ordered(x * y, z * y, z);
    lemma_div_multiples_vanish(y, z);
    vstd::arithmetic::div_mod::lemma_mod_multiples_basic(y, z);
    assert(y * z == z * y) by (nonlinear_arith);
    lemma_div_is_ordered(x * y + z - 1, z * y + z - 1, z);
}

/// With a factor at least the divisor, the quotient reaches the other
/// factor: `v >= s` gives `v * n / s >= n`.
pub proof fn lemma_muldiv_ge(v: int, n: int, s: int)
    requires
        0 < s <= v,
        0 <= n,
    ensures
        v * n / s >= n,
{
    assert(v * n >= s * n) by (nonlinear_arith)
        requires
            0 < s <= v,
            0 <= n,
    ;
    lemma_div_multiples_vanish(n, s);
    lemma_div_is_ordered(s * n, v * n, s);
}

/// Multiplying a rounded-down quotient back never exceeds the dividend.
pub proof fn lemma_floor_times_le(x: int, c: int)
    requires
        0 < c,
    ensures
        c * (x / c) <= x,
{
    lemma_fundamental_div_mod(x, c);
}

/// Multiplying a rounded-up quotient back reaches the dividend.
pub proof fn lemma_ceil_times_ge(x: int, c: int)
    requires
        0 < c,
        0 <= x,
    ensures
        c * ((x + c - 1) / c) >= x,
{
    lemma_ceil_structure(x, c);
    lemma_fundamental_div_mod(x, c);
    if x % c > 0 {
        assert(c * (x / c + 1) == c * (x / c) + c) by (nonlinear_arith);
    }
}

/// Removing `n <= s` shares removes at most their share of the surplus:
/// `v * n / s <= n + (v - s)`, the step that keeps value covering shares
/// across an unstake.
pub proof fn lemma_unstake_bound(v: int, n: int, s: int)
    requires
        0 < s <= v,
        0 <= n <= s,
    ensures
        v * n / s <= n + v - s,
{
    assert(v * n == (v - s) * n + n * s) by (nonlinear_arith);
    lemma_hoist_over_denominator((v - s) * n, n, s as nat);
    lemma_muldiv_le(n, v - s, s);
    assert(n * (v - s) == (v - s) * n) by (nonlinear_arith);
}

/// The bounds a stake conversion chain obeys: staking `a` buys
/// `n = floor(s * a / v)` shares, whose down-rounded value (the charge)
/// never exceeds `a`, whose up-rounded value (the pool credit) never
/// exceeds `a` either, and whose value covers the share count itself while
/// value covers shares (`s <= v`).
pub proof fn lemma_stake_conversion_bounds(a: int, s: int, v: int)
    requires
        0 < s <= v,
        0 <= a,
    ensures
        ({
            let n = shares_from_amount_down(a, s, v);
            &&& 0 <= n <= a
            &&& amount_from_shares_down(n, s, v) <= a
            &&& amount_from_shares_up(n, s, v) <= a
            &&& n <= amount_from_shares_down(n, s, v)
            &&& amount_from_shares_down(n, s, v) <= amount_from_shares_up(n, s, v)
            &&& 0 <= amount_from_shares_down(n, s, v)
        }),
{
    let n = s * a / v;
    assert(s * a >= 0) by (nonlinear_arith)
        requires
            0 <= s,
            0 <= a,
    ;
    lemma_div_pos_is_pos(s * a, v);
    lemma_muldiv_le(s, a, v);
    // v * n <= s * a, so the charge floor(v * n / s) stays below a.
    lemma_floor_times_le(s * a, v);
    assert(v * n >= 0) by (nonlinear_arith)
        requires
            0 <= v,
            0 <= n,
    ;
    lemma_div_is_ordered(v * n, s * a, s);
    lemma_div_multiples_vanish(a, s);
    // The up-rounded credit stays below a as well.
    lemma_div_is_ordered(v * n + s - 1, s * a + s - 1, s);
    lemma_ceil_structure(s * a, s);
    lemma_mod_multiples_basic(a, s);
    assert(a * s == s * a) by (nonlinear_arith);
    // The charge covers the shares while the price is at least one.
    lemma_muldiv_ge(v, n, s);
    lemma_div_is_ordered(v * n, v * n + s - 1, s);
    lemma_div_pos_is_pos(v * n, s);
}

/// The bounds an unstake conversion chain obeys: unstaking `a >= 1` costs
/// `n = ceil(s * a / v) >= 1` shares; while `n` stays within the
/// outstanding shares, the credited up-rounded value and the removed
/// down-rounded value stay within the pool value, the removed value stays
/// within `n` plus the value surplus (which keeps value covering shares),
/// and the credit is positive.
pub proof fn lemma_unstake_conversion_bounds(a: int, s: int, v: int)
    requires
        0 < s <= v,
        1 <= a,
    ensures
        ({
            let n = shares_from_amount_up(a, s, v);
            &&& 1 <= n
            &&& (n <= s ==> {
                &&& amount_from_shares_up(n, s, v) <= v
                &&& amount_from_shares_down(n, s, v) <= v
                &&& amount_from_shares_down(n, s, v) <= n + v - s
                &&& amount_from_shares_down(n, s, v) <= amount_from_shares_up(n, s, v)
                &&& 1 <= amount_from_shares_up(n, s, v)
                &&& 0 <= amount_from_shares_down(n, s, v)
            })
        }),
{
    let n = (s * a + v - 1) / v;
    assert(s * a >= 1) by (nonlinear_arith)
        requires
            1 <= s,
            1 <= a,
    ;
    // The numerator reaches v, so the share cost is at least one.
    lemma_div_is_ordered(v, s * a + v - 1, v);
    vstd::arithmetic::div_mod::lemma_div_by_self(v);
    if n <= s {
        assert(v * n <= v * s) by (nonlinear_arith)
            requires
                n <= s,
                0 <= v,
        ;
        assert(v * n >= v) by (nonlinear_arith)
            requires
                1 <= n,
                1 <= v,
        ;
        // Up-rounded credit stays within the pool value.
        lemma_div_is_ordered(v * n + s - 1, v * s + s - 1, s);
        lemma_ceil_structure(v * s, s);
        lemma_mod_multiples_basic(v, s);
        assert(v * s == s * v) by (nonlinear_arith);
        lemma_div_multiples_vanish(v, s);
        // Down-rounded removal stays within the up-rounded credit.
        lemma_div_is_ordered(v * n, v * n + s - 1, s);
        // Down-rounded removal keeps value covering shares.
        lemma_unstake_bound(v, n, s);
        // The credit is positive.
        lemma_div_is_ordered(s, v * n + s - 1, s);
        vstd::arithmetic::div_mod::lemma_div_by_self(s);
        lemma_div_pos_is_pos(v * n, s);
    }
}

} // verus!
