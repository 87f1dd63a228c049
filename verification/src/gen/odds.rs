//! Probabilities as integers.
//!
//! A random draw is a 32-bit number. An event of probability `p / 2^32`
//! happens when the draw, rounded to the 24 significant bits of a
//! single-precision number, is below `p`.

use vstd::prelude::*;

verus! {

/// The spacing of single-precision numbers around a 32-bit number.
pub open spec fn spacing(x: nat) -> nat {
    if x < 0x100_0000 {
        1
    } else if x < 0x200_0000 {
        2
    } else if x < 0x400_0000 {
        4
    } else if x < 0x800_0000 {
        8
    } else if x < 0x1000_0000 {
        16
    } else if x < 0x2000_0000 {
        32
    } else if x < 0x4000_0000 {
        64
    } else if x < 0x8000_0000 {
        128
    } else {
        256
    }
}

/// The integer nearest to `a / b`; a tie goes to the even one.
pub open spec fn round_even(a: nat, b: nat) -> nat {
    let q = a / b;
    let r = a % b;
    if 2 * r > b || (2 * r == b && q % 2 == 1) {
        q + 1
    } else {
        q
    }
}

/// A number rounded to 24 significant bits.
pub open spec fn round24(x: nat) -> nat {
    round_even(x, spacing(x)) * spacing(x)
}

/// Whether a draw falls below a threshold.
pub open spec fn falls_below(draw: u32, p: u64) -> bool {
    round24(draw as nat) < p
}

fn spacing_of(x: u32) -> (r: u64)
    ensures
        r == spacing(x as nat),
        1 <= r <= 256,
{
    if x < 0x100_0000 {
        1
    } else if x < 0x200_0000 {
        2
    } else if x < 0x400_0000 {
        4
    } else if x < 0x800_0000 {
        8
    } else if x < 0x1000_0000 {
        16
    } else if x < 0x2000_0000 {
        32
    } else if x < 0x4000_0000 {
        64
    } else if x < 0x8000_0000 {
        128
    } else {
        256
    }
}

fn round_even_of(a: u128, b: u128) -> (r: u128)
    requires
        0 < b < 0x1_0000_0000_0000_0000,
        a < 0x1_0000_0000_0000_0000,
    ensures
        r == round_even(a as nat, b as nat),
        r <= a + 1,
{
    let q: u128 = a / b;
    let m: u128 = a % b;
    assert(q <= a && m < b && q == a as nat / b as nat && m == a as nat % b as nat)
        by (nonlinear_arith)
        requires
            b > 0,
            q == a / b,
            m == a % b,
    ;
    if 2 * m > b || (2 * m == b && q % 2 == 1) {
        q + 1
    } else {
        q
    }
}

pub fn round24_of(x: u32) -> (r: u64)
    ensures
        r == round24(x as nat),
{
    let s: u64 = spacing_of(x);
    let q: u128 = round_even_of(x as u128, s as u128);
    assert(q * s <= 0x1_0000_0000 * 256) by (nonlinear_arith)
        requires
            q <= 0x1_0000_0000,
            s <= 256,
    ;
    (q as u64) * s
}

/// The smallest whole threshold that is not below `n / d`, where `n / d` has
/// first been rounded to 24 significant bits. `step` is the spacing tried.
pub open spec fn threshold(n: nat, d: nat, step: nat) -> nat
    decreases 1024 - step,
{
    if step >= 512 || step == 0 || n < 0x100_0000 * d * step {
        round_even(n, d * step) * step
    } else {
        threshold(n, d, 2 * step)
    }
}

/// The threshold of a probability given in thousandths. A draw may round up
/// to one, which is not below one; every draw is below more than one.
pub open spec fn milli_threshold(m: int) -> nat {
    if m <= 0 {
        0
    } else if m > 1000 {
        0x1_0000_0001
    } else if m == 1000 {
        0x1_0000_0000
    } else {
        let n = (m * 0x1_0000_0000) as nat;
        if n * 2 < 0x100_0000 * 1000 {
            (round_even(n * 2, 1000) + 1) / 2
        } else {
            threshold(n, 1000, 1)
        }
    }
}

fn threshold_of(n: u64, step: u64) -> (r: u64)
    requires
        n < 1000 * 0x1_0000_0000,
        1 <= step < 1024,
    ensures
        r == threshold(n as nat, 1000, step as nat),
    decreases 1024 - step,
{
    assert(0x100_0000 * 1000 * (step as nat) == 0x100_0000u64 * 1000 * step) by (nonlinear_arith)
        requires
            step < 1024,
    ;
    if step >= 512 || n < 0x100_0000 * 1000 * step {
        let q: u128 = round_even_of(n as u128, 1000 * step as u128);
        assert(q <= 0x1_0000_0001) by {
            lemma_round_bound(n as nat, (1000 * step) as nat);
        }
        assert(q * step <= 0x1_0000_0001 * 1024) by (nonlinear_arith)
            requires
                q <= 0x1_0000_0001,
                step < 1024,
        ;
        (q as u64) * step
    } else {
        threshold_of(n, 2 * step)
    }
}

proof fn lemma_round_bound(n: nat, b: nat)
    requires
        n < 1000 * 0x1_0000_0000,
        b >= 1000,
    ensures
        round_even(n, b) <= 0x1_0000_0001,
{
    assert(n / b <= 0x1_0000_0000) by (nonlinear_arith)
        requires
            n < 1000 * 0x1_0000_0000,
            b >= 1000,
    ;
}

/// The threshold of a probability given in thousandths.
pub fn milli_odds(m: i32) -> (r: u64)
    ensures
        r == milli_threshold(m as int),
{
    if m <= 0 {
        return 0;
    }
    if m > 1000 {
        return 0x1_0000_0001;
    }
    if m == 1000 {
        return 0x1_0000_0000;
    }
    let n: u64 = m as u64 * 0x1_0000_0000;
    if n * 2 < 0x100_0000 * 1000 {
        let q: u128 = round_even_of((n * 2) as u128, 1000);
        ((q + 1) / 2) as u64
    } else {
        threshold_of(n, 1)
    }
}

/// The threshold of a share of the whole, which is at most one.
pub open spec fn share_threshold(m: int) -> nat {
    milli_threshold(
        if m > 1000 {
            1000
        } else {
            m
        },
    )
}

pub fn share_odds(m: i32) -> (r: u64)
    ensures
        r == share_threshold(m as int),
{
    milli_odds(
        if m > 1000 {
            1000
        } else {
            m
        },
    )
}

proof fn lemma_round24_bound(x: nat)
    requires
        x <= u32::MAX,
    ensures
        round24(x) <= 0x1_0000_0000,
{
    let s = spacing(x);
    let q = round_even(x, s);
    assert(q <= 0x100_0000);
    assert(q * s <= 0x1_0000_0000) by (nonlinear_arith)
        requires
            q <= 0x100_0000,
            s <= 256,
    ;
}

/// What is sure always happens, and what is impossible never does: every draw
/// falls below a probability of more than one, and none below one of zero.
pub proof fn law_sure_and_impossible(draw: u32, m: int)
    ensures
        m > 1000 ==> falls_below(draw, milli_threshold(m) as u64),
        m <= 0 ==> !falls_below(draw, milli_threshold(m) as u64),
{
    lemma_round24_bound(draw as nat);
}

proof fn lemma_round_even(a: nat, b: nat)
    requires
        b > 0,
    ensures
        2 * (round_even(a, b) * b - a) <= b,
        2 * (a - round_even(a, b) * b) <= b,
{
    let q = a / b;
    vstd::arithmetic::div_mod::lemma_fundamental_div_mod(a as int, b as int);
    assert(q * b == b * q && (q + 1) * b == b * q + b) by (nonlinear_arith);
}

proof fn lemma_round24(x: nat)
    requires
        x <= u32::MAX,
    ensures
        round24(x) <= x + 128,
        x <= round24(x) + 128,
{
    lemma_round_even(x, spacing(x));
}

proof fn lemma_threshold(n: nat, d: nat, step: nat)
    requires
        d > 0,
        1 <= step <= 1023,
    ensures
        2 * (d * threshold(n, d, step) - n) <= 1023 * d,
        2 * (n - d * threshold(n, d, step)) <= 1023 * d,
    decreases 1024 - step,
{
    if step >= 512 || n < 0x100_0000 * d * step {
        let b = d * step;
        assert(b > 0 && b <= 1023 * d) by (nonlinear_arith)
            requires
                b == d * step,
                d > 0,
                1 <= step <= 1023,
        ;
        lemma_round_even(n, b);
        let r = round_even(n, b);
        assert(d * (r * step) == r * b) by (nonlinear_arith)
            requires
                b == d * step,
        ;
    } else {
        lemma_threshold(n, d, 2 * step);
    }
}

/// A chance is what it says: of all draws just that share falls below it, but
/// for the few at its edge that rounding moves.
pub proof fn law_chances_are_what_they_say(draw: u32, m: int)
    requires
        0 < m < 1000,
    ensures
        1000 * (draw + 1024) < m * 0x1_0000_0000 ==> falls_below(draw, milli_threshold(m) as u64),
        1000 * (draw - 1024) > m * 0x1_0000_0000 ==> !falls_below(draw, milli_threshold(m) as u64),
{
    lemma_round24(draw as nat);
    let n = (m * 0x1_0000_0000) as nat;
    if n * 2 < 0x100_0000 * 1000 {
        lemma_round_even(n * 2, 1000);
    } else {
        lemma_threshold(n, 1000, 1);
    }
}

} // verus!
