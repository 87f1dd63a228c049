//! Quotients as binary floating-point numbers hold them: rounded to so many
//! significant bits, ties to the even one. A number is held as a whole number
//! over a power of two.

use vstd::prelude::*;

use crate::text;

verus! {

/// Two to the number of significant bits of a single-precision number.
pub const SINGLE: u64 = 0x100_0000;

/// The same of a double-precision number.
pub const DOUBLE: u64 = 0x20_0000_0000_0000;

/// The least power of two, from `s` on, that scales `a / b` up to the full
/// number of bits.
pub open spec fn fine_scale(a: nat, b: nat, limit: nat, s: nat) -> nat
    decreases limit * b - a * s,
{
    if a == 0 || s == 0 || 2 * (a * s) >= limit * b {
        s
    } else {
        proof {
            lemma_grows(a, s);
        }
        fine_scale(a, b, limit, 2 * s)
    }
}

/// The least power of two, from `d` on, in whose multiples `a / b` has no more
/// than the full number of bits.
pub open spec fn coarse_step(a: nat, b: nat, limit: nat, d: nat) -> nat
    decreases 2 * a - limit * b * d,
{
    if limit == 0 || b == 0 || d == 0 || a < limit * b * d {
        d
    } else {
        proof {
            assert(limit * b > 0) by (nonlinear_arith)
                requires
                    limit > 0,
                    b > 0,
            ;
            lemma_grows(limit * b, d);
        }
        coarse_step(a, b, limit, 2 * d)
    }
}

pub proof fn lemma_grows(a: nat, s: nat)
    requires
        a > 0,
        s > 0,
    ensures
        a * (2 * s) == 2 * (a * s),
        a * s > 0,
{
    assert(a * (2 * s) == 2 * (a * s) && a * s > 0) by (nonlinear_arith)
        requires
            a > 0,
            s > 0,
    ;
}

/// The number of `limit`'s bits nearest to `a / b`, as a numerator and a power
/// of two under it.
pub open spec fn nearest(a: nat, b: nat, limit: nat) -> (nat, nat) {
    if 2 * a < limit * b {
        let s = fine_scale(a, b, limit, 1);
        (text::rounded((a * s) as int, b as int) as nat, s)
    } else {
        let d = coarse_step(a, b, limit, 1);
        ((text::rounded(a as int, (b * d) as int) * d) as nat, 1)
    }
}

/// A whole number rounded to the bits of `limit`.
pub open spec fn whole(a: nat, limit: nat) -> nat {
    let d = coarse_step(a, 1, limit, 1);
    (text::rounded(a as int, d as int) * d) as nat
}

/// `a / b`, rounded to the bits of `limit`, with two decimals.
pub open spec fn shown(a: nat, b: nat, limit: nat) -> Seq<char> {
    let (n, d) = nearest(a, b, limit);
    text::hundredths(n as int, d as int)
}

pub proof fn lemma_fine(a: nat, b: nat, limit: nat, s: nat)
    requires
        s > 0,
        s == 1 || a * s < limit * b,
    ensures
        fine_scale(a, b, limit, s) >= s,
        fine_scale(a, b, limit, s) == 1 || a * fine_scale(a, b, limit, s) < limit * b,
    decreases limit * b - a * s,
{
    if !(a == 0 || s == 0 || 2 * (a * s) >= limit * b) {
        lemma_grows(a, s);
        lemma_fine(a, b, limit, 2 * s);
    }
}

proof fn lemma_four_times(a: nat, b: nat, limit: nat, s: nat)
    requires
        a > 0,
        s > 0,
        32 * (a * s) < limit * b,
    ensures
        fine_scale(a, b, limit, s) == fine_scale(a, b, limit, 16 * s),
        a * (16 * s) == 16 * (a * s),
        a * s > 0,
{
    lemma_grows(a, s);
    lemma_grows(a, 2 * s);
    lemma_grows(a, 4 * s);
    lemma_grows(a, 8 * s);
    assert(fine_scale(a, b, limit, s) == fine_scale(a, b, limit, 2 * s));
    assert(fine_scale(a, b, limit, 2 * s) == fine_scale(a, b, limit, 4 * s));
    assert(fine_scale(a, b, limit, 4 * s) == fine_scale(a, b, limit, 8 * s));
    assert(fine_scale(a, b, limit, 8 * s) == fine_scale(a, b, limit, 16 * s));
}

fn find_scale(a: u128, b: u128, limit: u64) -> (r: u128)
    requires
        b > 0,
        limit * b < 0x1000_0000_0000_0000_0000_0000_0000_0000,
        2 * a < limit * b,
    ensures
        r == fine_scale(a as nat, b as nat, limit as nat, 1),
        a * r < limit * b,
        r >= 1,
        r == 1 || r < limit * b,
{
    if a == 0 {
        return 1;
    }
    let top: u128 = limit as u128 * b;
    let mut s: u128 = 1;
    let far: u128 = top / 32;
    while a * s < far
        invariant
            a > 0,
            s > 0,
            top == limit * b,
            far == top / 32,
            top < 0x1000_0000_0000_0000_0000_0000_0000_0000,
            a * s < top,
            s == 1 || s < top,
            fine_scale(a as nat, b as nat, limit as nat, 1) == fine_scale(
                a as nat,
                b as nat,
                limit as nat,
                s as nat,
            ),
        decreases top - a * s,
    {
        proof {
            lemma_four_times(a as nat, b as nat, limit as nat, s as nat);
            assert(s <= a * s) by (nonlinear_arith)
                requires
                    a > 0,
            ;
        }
        s = 16 * s;
    }
    while 2 * (a * s) < top
        invariant
            a > 0,
            s > 0,
            top == limit * b,
            top < 0x1000_0000_0000_0000_0000_0000_0000_0000,
            a * s < top,
            s == 1 || s < top,
            fine_scale(a as nat, b as nat, limit as nat, 1) == fine_scale(
                a as nat,
                b as nat,
                limit as nat,
                s as nat,
            ),
        decreases top - a * s,
    {
        proof {
            lemma_grows(a as nat, s as nat);
            assert(s <= a * s) by (nonlinear_arith)
                requires
                    a > 0,
            ;
        }
        s = 2 * s;
    }
    s
}

fn find_step(a: u128, b: u128, limit: u64) -> (r: u128)
    requires
        b > 0,
        limit > 0,
        a < 0x1_0000_0000_0000_0000_0000_0000_0000,
        limit * b < 0x1000_0000_0000_0000_0000_0000_0000_0000,
    ensures
        r == coarse_step(a as nat, b as nat, limit as nat, 1),
        r >= 1,
        r == 1 || limit * b * r <= 2 * a,
{
    let top: u128 = limit as u128 * b;
    assert(top > 0) by (nonlinear_arith)
        requires
            top == limit * b,
            limit > 0,
            b > 0,
    ;
    let mut d: u128 = 1;
    while a >= top * d
        invariant
            d > 0,
            top > 0,
            b > 0,
            limit > 0,
            top == limit * b,
            top < 0x1000_0000_0000_0000_0000_0000_0000_0000,
            a < 0x1_0000_0000_0000_0000_0000_0000_0000,
            d == 1 || top * d <= 2 * a,
            coarse_step(a as nat, b as nat, limit as nat, 1) == coarse_step(
                a as nat,
                b as nat,
                limit as nat,
                d as nat,
            ),
        decreases 2 * a - top * d,
    {
        proof {
            lemma_grows(top as nat, d as nat);
            assert(d <= top * d) by (nonlinear_arith)
                requires
                    top > 0,
            ;
        }
        d = 2 * d;
    }
    d
}

proof fn lemma_rounded_bound(a: int, b: int)
    requires
        a >= 0,
        b > 0,
    ensures
        0 <= text::rounded(a, b) <= a / b + 1,
        a / b <= a,
{
    assert(0 <= a / b <= a) by (nonlinear_arith)
        requires
            a >= 0,
            b > 0,
    ;
}

/// Rounds a quotient to the bits of `limit`.
pub fn find_nearest(a: u128, b: u128, limit: u64) -> (r: (u128, u128))
    requires
        b > 0,
        limit > 1,
        limit * b < 0x1000_0000_0000_0000_0000_0000_0000_0000,
        a < 0x1_0000_0000_0000_0000_0000_0000_0000,
    ensures
        (r.0 as nat, r.1 as nat) == nearest(a as nat, b as nat, limit as nat),
        r.1 >= 1,
        r.0 <= 2 * a + limit + 2,
        r.1 == 1 || (a * r.1 < limit * b && r.0 <= limit + 1 && r.1 < limit * b),
{
    assert(b <= limit * b && limit * b >= 2) by (nonlinear_arith)
        requires
            limit > 1,
            b > 0,
    ;
    if 2 * a < limit as u128 * b {
        let s: u128 = find_scale(a, b, limit);
        let m: u128 = text::round(a * s, b);
        proof {
            lemma_rounded_bound((a * s) as int, b as int);
            assert((a * s) / (b as int) < limit) by (nonlinear_arith)
                requires
                    a * s < limit * b,
                    b > 0,
                    a * s >= 0,
            ;
        }
        (m, s)
    } else {
        let d: u128 = find_step(a, b, limit);
        proof {
            if d > 1 {
                assert(b * d <= limit * b * d) by (nonlinear_arith)
                    requires
                        limit >= 1,
                        b > 0,
                        d > 0,
                ;
            } else {
                assert(b * d == b) by (nonlinear_arith)
                    requires
                        d == 1,
                ;
            }
            assert(b * d > 0) by (nonlinear_arith)
                requires
                    b > 0,
                    d > 0,
            ;
            lemma_rounded_bound(a as int, b * d);
            let q = a as int / (b * d);
            assert(q * d <= a) by (nonlinear_arith)
                requires
                    q == a as int / (b * d),
                    b >= 1,
                    d >= 1,
                    a >= 0,
                    b * d > 0,
            ;
            let m = text::rounded(a as int, b * d);
            assert(m * d <= q * d + d) by (nonlinear_arith)
                requires
                    m <= q + 1,
                    d >= 1,
            ;
            assert(m * d >= 0) by (nonlinear_arith)
                requires
                    m >= 0,
                    d >= 1,
            ;
            if d > 1 {
                assert(2 * d <= limit * b * d) by (nonlinear_arith)
                    requires
                        limit * b >= 2,
                        d >= 1,
                ;
            }
        }
        let m: u128 = text::round(a, b * d);
        (m * d, 1)
    }
}

/// Scaling up stops with the full number of bits.
pub proof fn lemma_full(a: nat, b: nat, limit: nat, s: nat)
    requires
        a > 0,
        s > 0,
    ensures
        2 * (a * fine_scale(a, b, limit, s)) >= limit * b,
    decreases limit * b - a * s,
{
    if 2 * (a * s) < limit * b {
        lemma_grows(a, s);
        lemma_full(a, b, limit, 2 * s);
    }
}

/// Rounds a whole number to the bits of `limit`.
pub fn find_whole(a: u128, limit: u64) -> (r: u128)
    requires
        1 < limit <= DOUBLE,
        a < 0x1_0000_0000_0000_0000_0000,
    ensures
        r == whole(a as nat, limit as nat),
        a > 0 ==> 0 < r,
        r <= 2 * a,
{
    let d: u128 = find_step(a, 1, limit);
    proof {
        lemma_rounded_bound(a as int, d as int);
        let q = a as int / d as int;
        let m = text::rounded(a as int, d as int);
        if d > 1 {
            assert(2 * d <= limit * d) by (nonlinear_arith)
                requires
                    limit >= 2,
                    d >= 1,
            ;
            assert(limit * 1 * d == limit * d);
        }
        assert(0 <= q * d <= a) by (nonlinear_arith)
            requires
                q == a as int / d as int,
                d >= 1,
                a >= 0,
        ;
        assert(m * d <= q * d + d && m * d >= 0) by (nonlinear_arith)
            requires
                0 <= m <= q + 1,
                d >= 1,
        ;
        if a > 0 {
            assert(q >= 1) by (nonlinear_arith)
                requires
                    q == a as int / d as int,
                    1 <= d <= a,
            ;
            assert(m * d >= 1) by (nonlinear_arith)
                requires
                    m >= 1,
                    d >= 1,
            ;
        }
        if d == 1 {
            assert(a as int % 1 == 0 && a as int / 1 == a);
            assert(d as int == 1);
            assert(m == a);
        }
    }
    let m: u128 = text::round(a, d);
    m * d
}

/// Writes a quotient, rounded to the bits of `limit`, with two decimals.
pub fn put_shown(out: &mut Vec<char>, a: u128, b: u128, limit: u64)
    requires
        b > 0,
        1 < limit <= DOUBLE,
        limit * b < 0x1000_0000_0000_0000_0000_0000_0000_0000,
        a < 0x1_0000_0000_0000_0000_0000_0000_0000,
    ensures
        final(out)@ == old(out)@ + shown(a as nat, b as nat, limit as nat),
{
    let (n, d): (u128, u128) = find_nearest(a, b, limit);
    text::put_hundredths(out, n, d);
}

} // verus!
