//! How the rows of a ripped song lie in time: as far apart as the tempo says,
//! without drifting, and as near to what the chip struck as that tempo allows.

use vstd::prelude::*;

use crate::rip::clock;
use crate::rip::trace;
use crate::rip::trace::FrameTrace;

verus! {

/// A row is the 900th part of a minute's frames over the tempo, in 256ths of a
/// frame, to the nearest; no row is shorter than a frame.
pub proof fn law_rows_are_as_long_as_the_tempo_says(bpm: u16)
    requires
        bpm >= 1,
    ensures
        clock::speed_of(bpm) >= 256,
        clock::speed_of(bpm) > 256 ==> {
            &&& 2 * (clock::speed_of(bpm) * bpm - 256 * 900) <= bpm
            &&& 2 * (256 * 900 - clock::speed_of(bpm) * bpm) <= bpm
        },
{
    let b = bpm as int;
    let s = (460_800 + b) / (2 * b);
    assert(2 * (s * b - 230_400) <= b && 2 * (230_400 - s * b) <= b) by (nonlinear_arith)
        requires
            s == (460_800 + b) / (2 * b),
            b >= 1,
    ;
}

/// Whether rows lie a length apart, as near as whole frames can.
pub open spec fn are_even(s: Seq<u32>, speed: int) -> bool {
    forall|i: int, j: int|
        0 <= i < j < s.len() ==> -256 < 256 * (#[trigger] s[j] - #[trigger] s[i]) - (j - i) * speed
            < 256
}

/// Where row `j` of a clock begins, in 256ths of a frame.
proof fn lemma_row(speed: int, f: nat, until: nat, cnt: int, j: int)
    requires
        speed >= 256,
        cnt >= 0,
        until <= u32::MAX,
        0 <= j < clock::rows_from(speed, f, until, cnt).len(),
    ensures
        0 <= cnt + j * speed - 256 * (clock::rows_from(speed, f, until, cnt)[j] - f) < 256,
    decreases until + 1 - f,
{
    if cnt < 256 {
        if j > 0 {
            lemma_row(speed, f + 1, until, cnt + speed - 256, j - 1);
            assert((j - 1) * speed == j * speed - speed) by (nonlinear_arith);
        } else {
            assert(j * speed == 0) by (nonlinear_arith)
                requires
                    j == 0,
            ;
        }
    } else {
        lemma_row(speed, f + 1, until, cnt - 256, j);
    }
}

proof fn lemma_even(speed: int, f: nat, until: nat, cnt: int)
    requires
        speed >= 256,
        cnt >= 0,
        until <= u32::MAX,
    ensures
        are_even(clock::rows_from(speed, f, until, cnt), speed),
{
    let s = clock::rows_from(speed, f, until, cnt);
    assert forall|i: int, j: int| 0 <= i < j < s.len() implies -256 < 256 * (#[trigger] s[j]
        - #[trigger] s[i]) - (j - i) * speed < 256 by {
        lemma_row(speed, f, until, cnt, i);
        lemma_row(speed, f, until, cnt, j);
        assert((j - i) * speed == j * speed - i * speed) by (nonlinear_arith);
    }
}

proof fn lemma_residuals(speed: int, n: nat, cnt: int, seen: Seq<int>)
    requires
        speed >= 256,
        cnt >= 0,
        forall|i: int| 0 <= i < seen.len() ==> 0 <= #[trigger] seen[i] < 256,
    ensures
        ({
            let r = clock::residuals_from(speed, n, cnt, seen);
            forall|i: int| 0 <= i < r.len() ==> 0 <= #[trigger] r[i] < 256
        }),
    decreases n,
{
    let r = clock::residuals_from(speed, n, cnt, seen);
    if n == 0 || (cnt < 256 && seen.contains(cnt)) {
        assert(r == seen);
    } else if cnt < 256 {
        lemma_residuals(speed, (n - 1) as nat, cnt + speed - 256, seen.push(cnt));
        assert(r == clock::residuals_from(
            speed,
            (n - 1) as nat,
            cnt + speed - 256,
            seen.push(cnt),
        ));
    } else {
        lemma_residuals(speed, (n - 1) as nat, cnt - 256, seen);
        assert(r == clock::residuals_from(speed, (n - 1) as nat, cnt - 256, seen));
    }
}

proof fn lemma_aligned(
    speed: int,
    phase: u32,
    until: u32,
    ons: Seq<u32>,
    rs: Seq<int>,
    k: nat,
)
    requires
        speed >= 256,
        k <= rs.len(),
        forall|i: int| 0 <= i < rs.len() ==> 0 <= #[trigger] rs[i] < 256,
    ensures
        are_even(clock::aligned(speed, phase, until, ons, rs, k).0, speed),
        forall|i: int|
            0 <= i < k ==> clock::aligned(speed, phase, until, ons, rs, k).1 <= clock::total_error(
                clock::rows_from(speed, phase as nat, until as nat, #[trigger] rs[i]),
                ons,
                ons.len(),
            ),
    decreases k,
{
    if k > 0 {
        lemma_aligned(speed, phase, until, ons, rs, (k - 1) as nat);
        assert(0 <= rs[k - 1] < 256);
        lemma_even(speed, phase as nat, until as nat, rs[k - 1]);
    }
}

/// The tempo that a rip is told is the one its rows keep: any two of them are
/// as far apart as it says, to within a frame, however far that is.
pub proof fn law_rows_keep_the_tempo(t: Seq<FrameTrace>, bpm: u16)
    ensures
        clock::grid_of(t, Some(bpm)).bpm == bpm,
        are_even(clock::grid_of(t, Some(bpm)).starts, clock::speed_of(bpm)),
{
    let ons = trace::onset_frames(t, t.len());
    let last = if t.len() > 0 {
        t.last().frame
    } else {
        0
    };
    let phase = if ons.len() > 0 {
        ons[0]
    } else {
        0
    };
    let speed = clock::speed_of(bpm);
    lemma_residuals(speed, 512, 0, Seq::empty());
    let rs = clock::residuals_of(speed);
    lemma_aligned(speed, phase, (last + 1) as u32, ons, rs, rs.len());
}

proof fn lemma_least(e: Seq<nat>, k: nat, i: int)
    requires
        0 <= i < k <= e.len(),
    ensures
        clock::least_error(e, k) <= e[i],
    decreases k,
{
    if k > 1 && i < k - 1 {
        lemma_least(e, (k - 1) as nat, i);
    } else if k > 1 {
        lemma_least(e, (k - 1) as nat, 0);
    }
}

proof fn lemma_tied(e: Seq<nat>, lo: u16, least: nat, k: nat, i: int)
    requires
        k <= e.len(),
        lo + k <= u16::MAX,
        0 <= i < clock::tied(e, lo, least, k).len(),
    ensures
        ({
            let b = clock::tied(e, lo, least, k)[i];
            lo <= b < lo + k && e[b - lo] == least
        }),
    decreases k,
{
    let before = clock::tied(e, lo, least, (k - 1) as nat);
    if i < before.len() {
        lemma_tied(e, lo, least, (k - 1) as nat, i);
    }
}

proof fn lemma_some_tie(e: Seq<nat>, lo: u16, k: nat, least: nat, i: int)
    requires
        0 <= i < k <= e.len(),
        e[i] == least,
    ensures
        clock::tied(e, lo, least, k).len() > 0,
    decreases k,
{
    if i < k - 1 {
        lemma_some_tie(e, lo, (k - 1) as nat, least, i);
    }
}

proof fn lemma_least_is_one(e: Seq<nat>, k: nat) -> (i: int)
    requires
        0 < k <= e.len(),
    ensures
        0 <= i < k,
        e[i] == clock::least_error(e, k),
    decreases k,
{
    if k == 1 {
        0
    } else {
        let j = lemma_least_is_one(e, (k - 1) as nat);
        if e[k - 1] < clock::least_error(e, (k - 1) as nat) {
            k - 1
        } else {
            j
        }
    }
}

/// A tempo that a rip finds for itself explains the onsets no worse than any
/// other within four of the one it started from.
pub proof fn law_the_found_tempo_fits_best(t: Seq<FrameTrace>, other: u16)
    requires
        trace::onset_frames(t, t.len()).len() >= 2,
        ({
            let ons = trace::onset_frames(t, t.len());
            let b0 = clock::rough_bpm(clock::coarse(ons, ons[0]));
            &&& 1 <= b0 <= 900
            &&& b0 - 4 <= other <= b0 + 4
            &&& 1 <= other <= 900
        }),
    ensures
        ({
            let ons = trace::onset_frames(t, t.len());
            let last = t.last().frame;
            let g = clock::grid_of(t, None);
            clock::alignment(g.bpm, ons[0], last, ons).1 <= clock::alignment(
                other,
                ons[0],
                last,
                ons,
            ).1
        }),
{
    let ons = trace::onset_frames(t, t.len());
    assert(t.len() > 0);
    let last = t.last().frame;
    let b0 = clock::rough_bpm(clock::coarse(ons, ons[0]));
    let lo = if b0 < 5 {
        1int
    } else {
        b0 - 4
    };
    let hi = if b0 + 4 > 900 {
        900int
    } else {
        b0 + 4
    };
    let k = (hi - lo + 1) as nat;
    let e = clock::errors(lo as u16, ons[0], last, ons, k);
    let least = clock::least_error(e, k);
    lemma_least(e, k, other - lo);
    let i = lemma_least_is_one(e, k);
    lemma_some_tie(e, lo as u16, k, least, i);
    let ties = clock::tied(e, lo as u16, least, k);
    lemma_tied(e, lo as u16, least, k, ties.len() as int / 2);
    let best = ties[ties.len() as int / 2];
    assert(clock::grid_of(t, None).bpm == best);
    assert(e[best - lo] == clock::alignment(best, ons[0], last, ons).1);
    assert(e[other - lo] == clock::alignment(other, ons[0], last, ons).1);
}

} // verus!
