//! Finding the row grid a driver was using.
//!
//! A coarse sweep takes the largest row length that puts every onset within
//! a quarter row; then the driver's real row clock is simulated for the
//! integer tempos nearby, and the middle of those that explain the onsets
//! best is taken.

use vstd::prelude::*;

use crate::binary;
use crate::rip::trace;
use crate::rip::trace::FrameTrace;
use crate::song::CHANNELS;

verus! {

/// How well the chosen grid explains the onsets.
#[derive(Clone, Copy, Debug, PartialEq, Eq)]
pub enum Fit {
    /// Every onset lands on a row start. `ambiguous` is the range of tempos
    /// that fit equally well, where more than one does.
    Exact { ambiguous: Option<(u16, u16)> },
    /// Close: the worst offset in frames, and how many of the onsets are
    /// within a quarter row.
    Fitted { worst_frames: u32, within: usize, of: usize },
    /// Not really explained: the worst offset in frames, and how many onsets
    /// had to share a row with an earlier one on the same channel.
    Guessed { worst_frames: u32, collisions: u64 },
    /// The caller supplied the tempo.
    Told,
}

/// Where the rows are. A row is 900 / `bpm` frames long.
#[derive(Debug)]
pub struct Grid {
    pub bpm: u16,
    /// The frame of the first onset, where row 0 begins.
    pub phase: u32,
    /// The frame each row starts on.
    pub starts: Vec<u32>,
    pub fit: Fit,
}

#[verifier::ext_equal]
pub struct GridView {
    pub bpm: u16,
    pub phase: u32,
    pub starts: Seq<u32>,
    pub fit: Fit,
}

impl View for Grid {
    type V = GridView;

    open spec fn view(&self) -> GridView {
        GridView { bpm: self.bpm, phase: self.phase, starts: self.starts@, fit: self.fit }
    }
}

// ---------------------------------------------------------------- the row clock

/// The row length in 256ths of a frame, rounded; at least one frame.
pub open spec fn speed_of(bpm: u16) -> int {
    let b = if bpm == 0 {
        1int
    } else {
        bpm as int
    };
    let s = (460_800 + b) / (2 * b);
    if s < 256 {
        256
    } else {
        s
    }
}

fn find_speed(bpm: u16) -> (r: i64)
    ensures
        r == speed_of(bpm),
        256 <= r <= 300_000,
{
    let b: u64 = if bpm == 0 {
        1
    } else {
        bpm as u64
    };
    let s: u64 = (460_800 + b) / (2 * b);
    assert(s <= 300_000) by (nonlinear_arith)
        requires
            s == (460_800 + b) / (2 * b),
            1 <= b <= 65_535,
    ;
    if s < 256 {
        256
    } else {
        s as i64
    }
}

/// The frames from `f` to `until` on which rows begin, under a fixed-point
/// row clock that stands at `cnt`.
pub open spec fn rows_from(speed: int, f: nat, until: nat, cnt: int) -> Seq<u32>
    decreases until + 1 - f,
{
    if f > until {
        Seq::empty()
    } else if 0 <= cnt < 256 {
        seq![f as u32] + rows_from(speed, f + 1, until, cnt + speed - 256)
    } else {
        rows_from(speed, f + 1, until, cnt - 256)
    }
}

/// Frames that rise and lie between two bounds.
pub open spec fn rising(s: Seq<u32>, from: int, until: int) -> bool {
    &&& forall|i: int, j: int| 0 <= i < j < s.len() ==> #[trigger] s[i] < #[trigger] s[j]
    &&& forall|i: int| 0 <= i < s.len() ==> from <= #[trigger] s[i] <= until
}

proof fn lemma_rows_rise(speed: int, f: nat, until: nat, cnt: int)
    requires
        until <= u32::MAX,
    ensures
        rising(rows_from(speed, f, until, cnt), f as int, until as int),
    decreases until + 1 - f,
{
    if f <= until {
        if 0 <= cnt < 256 {
            let rest = rows_from(speed, f + 1, until, cnt + speed - 256);
            lemma_rows_rise(speed, f + 1, until, cnt + speed - 256);
            let s = seq![f as u32] + rest;
            assert forall|i: int, j: int| 0 <= i < j < s.len() implies #[trigger] s[i]
                < #[trigger] s[j] by {
                assert(s[j] == rest[j - 1]);
                if i > 0 {
                    assert(s[i] == rest[i - 1]);
                }
            }
            assert forall|i: int| 0 <= i < s.len() implies f <= #[trigger] s[i] <= until by {
                if i > 0 {
                    assert(s[i] == rest[i - 1]);
                }
            }
        } else {
            lemma_rows_rise(speed, f + 1, until, cnt - 256);
        }
    }
}

fn clock_rows(speed: i64, phase: u32, until: u32, cnt0: i64) -> (r: Vec<u32>)
    requires
        256 <= speed <= 300_000,
        can_count(phase, until, cnt0),
    ensures
        r@ == rows_from(speed as int, phase as nat, until as nat, cnt0 as int),
        rising(r@, phase as int, until as int),
{
    let ghost want = rows_from(speed as int, phase as nat, until as nat, cnt0 as int);
    proof {
        lemma_rows_rise(speed as int, phase as nat, until as nat, cnt0 as int);
    }
    let mut out: Vec<u32> = Vec::new();
    let mut cnt: i64 = cnt0;
    let mut f: u64 = phase as u64;
    assert(out@ + want =~= want);
    while f <= until as u64
        invariant
            256 <= speed <= 300_000,
            can_count(phase, until, cnt0),
            phase <= f,
            f <= until + 1 || f == phase,
            cnt >= 0 || (cnt0 < 0 && cnt == cnt0 - 256 * (f - phase)),
            out@ + rows_from(speed as int, f as nat, until as nat, cnt as int) == want,
        decreases until + 1 - f,
    {
        let ghost before = out@;
        if 0 <= cnt && cnt < 256 {
            let ghost rest = rows_from(
                speed as int,
                (f + 1) as nat,
                until as nat,
                cnt + speed - 256,
            );
            out.push(f as u32);
            assert(before + (seq![f as u32] + rest) =~= out@ + rest);
            cnt = cnt + speed;
        }
        cnt = cnt - 256;
        f += 1;
    }
    assert(out@ + Seq::<u32>::empty() =~= out@);
    out
}

/// Whether a row clock can count from `cnt0` over the frames: below zero it
/// only goes down.
pub open spec fn can_count(phase: u32, until: u32, cnt0: i64) -> bool {
    cnt0 < 0 && phase <= until ==> cnt0 - 256 * (until - phase + 1) >= i64::MIN
}

/// The frames on which rows begin at a tempo, from a frame on, with the row
/// clock at `cnt0`.
pub fn row_starts(bpm: u16, phase: u32, until: u32, cnt0: i64) -> (r: Vec<u32>)
    requires
        can_count(phase, until, cnt0),
    ensures
        r@ == rows_from(speed_of(bpm), phase as nat, until as nat, cnt0 as int),
{
    clock_rows(find_speed(bpm), phase, until, cnt0)
}

/// The distinct residuals that a row clock passes through, after `seen`.
pub open spec fn residuals_from(speed: int, n: nat, cnt: int, seen: Seq<int>) -> Seq<int>
    decreases n,
{
    if n == 0 {
        seen
    } else if 0 <= cnt < 256 {
        if seen.contains(cnt) {
            seen
        } else {
            residuals_from(speed, (n - 1) as nat, cnt + speed - 256, seen.push(cnt))
        }
    } else {
        residuals_from(speed, (n - 1) as nat, cnt - 256, seen)
    }
}

pub open spec fn residuals_of(speed: int) -> Seq<int> {
    residuals_from(speed, 512, 0, Seq::empty())
}

pub open spec fn longs(v: Seq<i64>) -> Seq<int> {
    v.map_values(|x: i64| x as int)
}

fn holds_long(v: &Vec<i64>, x: i64) -> (r: bool)
    ensures
        r == longs(v@).contains(x as int),
{
    let mut i: usize = 0;
    while i < v.len()
        invariant
            i <= v@.len(),
            forall|j: int| 0 <= j < i ==> #[trigger] v@[j] != x,
        decreases v@.len() - i,
    {
        if v[i] == x {
            assert(longs(v@)[i as int] == x as int);
            return true;
        }
        i += 1;
    }
    assert forall|j: int| 0 <= j < longs(v@).len() implies longs(v@)[j] != x as int by {
        assert(v@[j] != x);
    }
    false
}

fn residuals(speed: i64) -> (r: Vec<i64>)
    requires
        256 <= speed <= 300_000,
    ensures
        longs(r@) == residuals_of(speed as int),
        forall|i: int| 0 <= i < r@.len() ==> 0 <= #[trigger] r@[i] < 256,
{
    let mut seen: Vec<i64> = Vec::new();
    let mut cnt: i64 = 0;
    let mut n: usize = 512;
    assert(longs(seen@) =~= Seq::<int>::empty());
    while n > 0
        invariant
            n <= 512,
            256 <= speed <= 300_000,
            0 <= cnt <= 600_000,
            residuals_of(speed as int) == residuals_from(
                speed as int,
                n as nat,
                cnt as int,
                longs(seen@),
            ),
            forall|i: int| 0 <= i < seen@.len() ==> 0 <= #[trigger] seen@[i] < 256,
        decreases n,
    {
        if cnt < 256 {
            if holds_long(&seen, cnt) {
                return seen;
            }
            let ghost before = seen@;
            seen.push(cnt);
            assert(longs(seen@) =~= longs(before).push(cnt as int));
            cnt = cnt + speed;
        }
        cnt = cnt - 256;
        n -= 1;
    }
    seen
}

// ---------------------------------------------------------------- distances

/// The first row from `i` on that starts at or after a frame.
pub open spec fn row_at(starts: Seq<u32>, t: u32, i: nat) -> nat
    decreases starts.len() - i,
{
    if i >= starts.len() || starts[i as int] >= t {
        i
    } else {
        row_at(starts, t, i + 1)
    }
}

proof fn lemma_row_at(starts: Seq<u32>, t: u32, i: nat, k: nat)
    requires
        i <= k <= starts.len(),
        k < starts.len() ==> starts[k as int] >= t,
        forall|j: int| i <= j < k ==> #[trigger] starts[j] < t,
    ensures
        row_at(starts, t, i) == k,
    decreases k - i,
{
    if i < k {
        assert(starts[i as int] < t);
        lemma_row_at(starts, t, i + 1, k);
    }
}

/// Rows that start ever later.
pub open spec fn climbing(s: Seq<u32>) -> bool {
    forall|i: int, j: int| 0 <= i < j < s.len() ==> #[trigger] s[i] < #[trigger] s[j]
}

fn find_row(starts: &Vec<u32>, t: u32) -> (r: usize)
    requires
        climbing(starts@),
    ensures
        r == row_at(starts@, t, 0),
        r <= starts@.len(),
        r < starts@.len() ==> starts@[r as int] >= t,
        r > 0 ==> starts@[r - 1] < t,
{
    let mut lo: usize = 0;
    let mut hi: usize = starts.len();
    while lo < hi
        invariant
            lo <= hi <= starts@.len(),
            climbing(starts@),
            forall|j: int| 0 <= j < lo ==> #[trigger] starts@[j] < t,
            forall|j: int| hi <= j < starts@.len() ==> #[trigger] starts@[j] >= t,
        decreases hi - lo,
    {
        let mid: usize = lo + (hi - lo) / 2;
        if starts[mid] < t {
            lo = mid + 1;
        } else {
            hi = mid;
        }
    }
    proof {
        lemma_row_at(starts@, t, 0, lo as nat);
    }
    lo
}

/// The distance to the nearest row start, in frames.
pub open spec fn nearest_frames(starts: Seq<u32>, t: u32) -> u32 {
    let i = row_at(starts, t, 0) as int;
    let before = if i > 0 {
        (t - starts[i - 1]) as u32
    } else {
        u32::MAX
    };
    let after = if i < starts.len() {
        (starts[i] - t) as u32
    } else {
        u32::MAX
    };
    if before < after {
        before
    } else {
        after
    }
}

fn nearest(starts: &Vec<u32>, t: u32) -> (r: u32)
    requires
        climbing(starts@),
    ensures
        r == nearest_frames(starts@, t),
{
    let i: usize = find_row(starts, t);
    let before: u32 = if i > 0 {
        t - starts[i - 1]
    } else {
        u32::MAX
    };
    let after: u32 = if i < starts.len() {
        starts[i] - t
    } else {
        u32::MAX
    };
    if before < after {
        before
    } else {
        after
    }
}

/// The row a frame belongs to: the one that starts nearest to it, the earlier
/// where two are as near.
pub open spec fn nearest_index(starts: Seq<u32>, t: u32) -> nat {
    let i = row_at(starts, t, 0) as int;
    if i < starts.len() && starts[i] == t {
        i as nat
    } else if i == 0 {
        0
    } else if i >= starts.len() {
        (starts.len() - 1) as nat
    } else if t - starts[i - 1] <= starts[i] - t {
        (i - 1) as nat
    } else {
        i as nat
    }
}

pub fn nearest_row(starts: &Vec<u32>, t: u32) -> (r: usize)
    requires
        climbing(starts@),
        starts@.len() > 0,
    ensures
        r == nearest_index(starts@, t),
        r < starts@.len(),
{
    let i: usize = find_row(starts, t);
    if i < starts.len() && starts[i] == t {
        i
    } else if i == 0 {
        0
    } else if i >= starts.len() {
        starts.len() - 1
    } else if t - starts[i - 1] <= starts[i] - t {
        i - 1
    } else {
        i
    }
}

/// The nearest row is at the nearest distance.
pub proof fn law_nearest_row_is_nearest(starts: Seq<u32>, t: u32, j: int)
    requires
        climbing(starts),
        0 <= j < starts.len(),
    ensures
        gap(starts[nearest_index(starts, t) as int], t) <= gap(starts[j], t),
{
    let i = row_at(starts, t, 0) as int;
    lemma_row_at_bounds(starts, t, 0);
    if j < i {
        assert(starts[j] < t);
        if j < i - 1 {
            assert(starts[j] < starts[i - 1]);
        }
    } else if j > i {
        assert(starts[i] < starts[j]);
    }
}

pub open spec fn gap(a: u32, b: u32) -> int {
    if a < b {
        b - a
    } else {
        a - b
    }
}

pub proof fn lemma_row_at_bounds(starts: Seq<u32>, t: u32, i: nat)
    requires
        i <= starts.len(),
    ensures
        i <= row_at(starts, t, i) <= starts.len(),
        forall|j: int| i <= j < row_at(starts, t, i) ==> #[trigger] starts[j] < t,
        row_at(starts, t, i) < starts.len() ==> starts[row_at(starts, t, i) as int] >= t,
    decreases starts.len() - i,
{
    if i < starts.len() && starts[i as int] < t {
        lemma_row_at_bounds(starts, t, i + 1);
    }
}

/// The distances of the first `k` onsets, added up.
pub open spec fn total_error(starts: Seq<u32>, ons: Seq<u32>, k: nat) -> nat
    decreases k,
{
    if k == 0 {
        0
    } else {
        total_error(starts, ons, (k - 1) as nat) + nearest_frames(starts, ons[k - 1]) as nat
    }
}

fn add_errors(starts: &Vec<u32>, ons: &Vec<u32>) -> (r: u64)
    requires
        climbing(starts@),
        ons@.len() <= u32::MAX,
    ensures
        r == total_error(starts@, ons@, ons@.len()),
        r < u64::MAX,
{
    let mut sum: u64 = 0;
    for k in 0..ons.len()
        invariant
            climbing(starts@),
            ons@.len() <= u32::MAX,
            sum == total_error(starts@, ons@, k as nat),
            sum <= k * 0xffff_ffff,
    {
        assert(k * 0xffff_ffff + 0xffff_ffff <= 0xffff_ffff * 0xffff_ffff) by (nonlinear_arith)
            requires
                k + 1 <= 0xffff_ffff,
        ;
        sum = sum + nearest(starts, ons[k]) as u64;
    }
    assert(ons@.len() * 0xffff_ffff <= 0xffff_ffff * 0xffff_ffff) by (nonlinear_arith)
        requires
            ons@.len() <= 0xffff_ffff,
    ;
    sum
}

/// The rows and the error of the best of the first `k` residuals: the first
/// with the least error.
pub open spec fn aligned(
    speed: int,
    phase: u32,
    until: u32,
    ons: Seq<u32>,
    rs: Seq<int>,
    k: nat,
) -> (Seq<u32>, nat)
    decreases k,
{
    if k == 0 {
        (Seq::empty(), u64::MAX as nat)
    } else {
        let best = aligned(speed, phase, until, ons, rs, (k - 1) as nat);
        let starts = rows_from(speed, phase as nat, until as nat, rs[k - 1]);
        let err = total_error(starts, ons, ons.len());
        if err < best.1 {
            (starts, err)
        } else {
            best
        }
    }
}

proof fn lemma_aligned_climbs(
    speed: int,
    phase: u32,
    until: u32,
    ons: Seq<u32>,
    rs: Seq<int>,
    k: nat,
)
    ensures
        climbing(aligned(speed, phase, until, ons, rs, k).0),
    decreases k,
{
    if k > 0 {
        lemma_aligned_climbs(speed, phase, until, ons, rs, (k - 1) as nat);
        lemma_rows_rise(speed, phase as nat, until as nat, rs[k - 1]);
    }
}

/// The rows of a grid start one after the other.
pub proof fn lemma_grid_climbs(t: Seq<FrameTrace>, bpm: Option<u16>)
    ensures
        climbing(grid_of(t, bpm).starts),
{
    let ons = trace::onset_frames(t, t.len());
    let last = if t.len() > 0 {
        t.last().frame
    } else {
        0
    };
    let phase = if ons.len() > 0 {
        ons[0]
    } else {
        0
    };
    let g = grid_of(t, bpm);
    let speed = speed_of(g.bpm);
    let rs = residuals_of(speed);
    lemma_aligned_climbs(speed, phase, (last + 1) as u32, ons, rs, rs.len());
    lemma_rows_rise(speed_of(150), phase as nat, last as nat, 0);
}

/// The rows of a tempo under the clock residual that explains the onsets
/// best, and how far off they are in all.
pub open spec fn alignment(bpm: u16, phase: u32, last: u32, ons: Seq<u32>) -> (Seq<u32>, nat) {
    let speed = speed_of(bpm);
    let rs = residuals_of(speed);
    aligned(speed, phase, (last + 1) as u32, ons, rs, rs.len())
}

fn best_alignment(bpm: u16, phase: u32, last: u32, ons: &Vec<u32>) -> (r: (Vec<u32>, u64))
    requires
        last < u32::MAX,
        ons@.len() <= u32::MAX,
    ensures
        (r.0@, r.1 as nat) == alignment(bpm, phase, last, ons@),
        climbing(r.0@),
        rising(r.0@, phase as int, last + 1),
{
    let speed: i64 = find_speed(bpm);
    let rs: Vec<i64> = residuals(speed);
    let ghost all = residuals_of(speed as int);
    assert(all.len() == rs@.len());
    let mut best: Vec<u32> = Vec::new();
    let mut err: u64 = u64::MAX;
    for k in 0..rs.len()
        invariant
            256 <= speed <= 300_000,
            last < u32::MAX,
            ons@.len() <= u32::MAX,
            all == longs(rs@),
            forall|i: int| 0 <= i < rs@.len() ==> 0 <= #[trigger] rs@[i] < 256,
            (best@, err as nat) == aligned(
                speed as int,
                phase,
                (last + 1) as u32,
                ons@,
                all,
                k as nat,
            ),
            rising(best@, phase as int, last + 1),
    {
        assert(all[k as int] == rs@[k as int]);
        let starts: Vec<u32> = clock_rows(speed, phase, last + 1, rs[k]);
        let e: u64 = add_errors(&starts, ons);
        if e < err {
            best = starts;
            err = e;
        }
    }
    (best, err)
}

// ---------------------------------------------------------------- the sweep

/// How far off a row an onset `d` frames in lands, in rows of `n` 128ths of a
/// frame: how far the quotient, in double precision, is from a whole number,
/// as a numerator and a denominator.
pub open spec fn off_row(d: nat, n: nat) -> (nat, nat) {
    let (m, s) = binary::nearest(128 * d, n, binary::DOUBLE as nat);
    let rem = m % s;
    (
        if rem < s - rem {
            rem
        } else {
            (s - rem) as nat
        },
        s,
    )
}

/// Whether one fraction is less than another.
pub open spec fn is_less(a: (nat, nat), b: (nat, nat)) -> bool {
    a.0 * b.1 < b.0 * a.1
}

/// The worst of the first `k` onsets.
pub open spec fn worst_off(ons: Seq<u32>, phase: u32, n: nat, k: nat) -> (nat, nat)
    decreases k,
{
    if k == 0 {
        (0, 1)
    } else {
        let b = worst_off(ons, phase, n, (k - 1) as nat);
        let o = off_row((ons[k - 1] - phase) as nat, n);
        if is_less(b, o) {
            o
        } else {
            b
        }
    }
}

/// What a sweep over row lengths from 192 to 4096 128ths of a frame has
/// found: the largest that fits within a quarter row, and the least bad.
#[verifier::ext_equal]
pub struct Sweep {
    pub fits: Option<nat>,
    pub least_bad: Option<((nat, nat), nat)>,
}

/// The sweep after its first `j` row lengths.
pub open spec fn sweep(ons: Seq<u32>, phase: u32, j: nat) -> Sweep
    decreases j,
{
    if j == 0 {
        Sweep { fits: None, least_bad: None }
    } else {
        let s = sweep(ons, phase, (j - 1) as nat);
        let n = 191 + j;
        let w = worst_off(ons, phase, n, ons.len());
        Sweep {
            fits: if 4 * w.0 < w.1 {
                Some(n)
            } else {
                s.fits
            },
            least_bad: match s.least_bad {
                None => Some((w, n)),
                Some((v, m)) => if is_less(w, v) {
                    Some((w, n))
                } else {
                    Some((v, m))
                },
            },
        }
    }
}

/// The row length to start from, in 128ths of a frame.
pub open spec fn coarse(ons: Seq<u32>, phase: u32) -> nat {
    let s = sweep(ons, phase, 3905);
    match s.fits {
        Some(n) => n,
        None => match s.least_bad {
            Some((_, n)) => n,
            None => 512,
        },
    }
}

/// A fraction of a row whose parts are of a bounded size.
spec fn is_small(a: (u128, u128)) -> bool {
    a.0 <= a.1 < 0x800_0000_0000_0000 && a.1 > 0
}

fn find_off(d: u64, n: u64) -> (r: (u128, u128))
    requires
        d <= 0xffff_ffff,
        0 < n <= 5000,
    ensures
        (r.0 as nat, r.1 as nat) == off_row(d as nat, n as nat),
        is_small(r),
{
    let (m, s): (u128, u128) = binary::find_nearest(128 * d as u128, n as u128, binary::DOUBLE);
    assert(s < 0x800_0000_0000_0000) by {
        if d == 0 {
            assert(binary::nearest(0, n as nat, binary::DOUBLE as nat).1 == 1);
        } else if s != 1 {
            assert(128 * s <= (128 * d) * s) by (nonlinear_arith)
                requires
                    d >= 1,
                    s >= 0,
            ;
        }
    }
    let rem: u128 = m % s;
    if rem < s - rem {
        (rem, s)
    } else {
        (s - rem, s)
    }
}

fn less(a: (u128, u128), b: (u128, u128)) -> (r: bool)
    requires
        is_small(a),
        is_small(b),
    ensures
        r == is_less((a.0 as nat, a.1 as nat), (b.0 as nat, b.1 as nat)),
{
    assert(a.0 * b.1 <= 0x800_0000_0000_0000 * 0x800_0000_0000_0000 && b.0 * a.1
        <= 0x800_0000_0000_0000 * 0x800_0000_0000_0000) by (nonlinear_arith)
        requires
            a.0 <= 0x800_0000_0000_0000,
            a.1 <= 0x800_0000_0000_0000,
            b.0 <= 0x800_0000_0000_0000,
            b.1 <= 0x800_0000_0000_0000,
    ;
    a.0 * b.1 < b.0 * a.1
}

fn find_worst(ons: &Vec<u32>, phase: u32, n: u64) -> (r: (u128, u128))
    requires
        0 < n <= 5000,
        forall|i: int| 0 <= i < ons@.len() ==> phase <= #[trigger] ons@[i],
    ensures
        (r.0 as nat, r.1 as nat) == worst_off(ons@, phase, n as nat, ons@.len()),
        is_small(r),
{
    let mut w: (u128, u128) = (0, 1);
    for k in 0..ons.len()
        invariant
            0 < n <= 5000,
            forall|i: int| 0 <= i < ons@.len() ==> phase <= #[trigger] ons@[i],
            (w.0 as nat, w.1 as nat) == worst_off(ons@, phase, n as nat, k as nat),
            is_small(w),
    {
        let d: u64 = (ons[k] - phase) as u64;
        let o: (u128, u128) = find_off(d, n);
        if less(w, o) {
            w = o;
        }
    }
    w
}

/// What a sweep has found, held as numbers.
spec fn found(fits: Option<u64>, bad: Option<((u128, u128), u64)>) -> Sweep {
    Sweep {
        fits: match fits {
            Some(n) => Some(n as nat),
            None => None,
        },
        least_bad: match bad {
            Some((w, n)) => Some(((w.0 as nat, w.1 as nat), n as nat)),
            None => None,
        },
    }
}

fn find_coarse(ons: &Vec<u32>, phase: u32) -> (r: u64)
    requires
        forall|i: int| 0 <= i < ons@.len() ==> phase <= #[trigger] ons@[i],
    ensures
        r == coarse(ons@, phase),
        192 <= r <= 4096,
{
    let mut fits: Option<u64> = None;
    let mut bad: Option<((u128, u128), u64)> = None;
    for j in 0..3905u64
        invariant
            forall|i: int| 0 <= i < ons@.len() ==> phase <= #[trigger] ons@[i],
            sweep(ons@, phase, j as nat) == found(fits, bad),
            fits is Some ==> 192 <= fits->0 <= 4096,
            bad is Some ==> is_small((bad->0).0) && 192 <= (bad->0).1 <= 4096,
            j > 0 ==> bad is Some,
    {
        let n: u64 = 192 + j;
        let w: (u128, u128) = find_worst(ons, phase, n);
        if 4 * w.0 < w.1 {
            fits = Some(n);
        }
        match bad {
            None => {
                bad = Some((w, n));
            },
            Some((v, _)) => {
                if less(w, v) {
                    bad = Some((w, n));
                }
            },
        }
        assert(sweep(ons@, phase, (j + 1) as nat) == found(fits, bad));
    }
    match fits {
        Some(n) => n,
        None => match bad {
            Some((_, n)) => n,
            None => 512,
        },
    }
}

// ---------------------------------------------------------------- the fit

/// The tempo that a row length gives, rounded.
pub open spec fn rough_bpm(n: nat) -> int {
    (230_400 + n as int) / (2 * n as int)
}

/// How far off each of `k` tempos from `lo` on is.
pub open spec fn errors(lo: u16, phase: u32, last: u32, ons: Seq<u32>, k: nat) -> Seq<nat> {
    Seq::new(k, |i: int| alignment((lo + i) as u16, phase, last, ons).1)
}

/// The least of the first `k`.
pub open spec fn least_error(e: Seq<nat>, k: nat) -> nat
    decreases k,
{
    if k <= 1 {
        e[0]
    } else {
        let b = least_error(e, (k - 1) as nat);
        if e[k - 1] < b {
            e[k - 1]
        } else {
            b
        }
    }
}

/// The tempos among the first `k` from `lo` on whose error is the least.
pub open spec fn tied(e: Seq<nat>, lo: u16, least: nat, k: nat) -> Seq<u16>
    decreases k,
{
    if k == 0 {
        Seq::empty()
    } else {
        let before = tied(e, lo, least, (k - 1) as nat);
        if e[k - 1] == least {
            before.push((lo + k - 1) as u16)
        } else {
            before
        }
    }
}

/// The worst distance of the first `k` onsets, in frames.
pub open spec fn worst_frames(starts: Seq<u32>, ons: Seq<u32>, k: nat) -> u32
    decreases k,
{
    if k == 0 {
        0
    } else {
        let b = worst_frames(starts, ons, (k - 1) as nat);
        let d = nearest_frames(starts, ons[k - 1]);
        if d > b {
            d
        } else {
            b
        }
    }
}

/// How many of the first `k` onsets are within a quarter row.
pub open spec fn within(starts: Seq<u32>, ons: Seq<u32>, bpm: u16, k: nat) -> nat
    decreases k,
{
    if k == 0 {
        0
    } else {
        within(starts, ons, bpm, (k - 1) as nat) + (if 4 * nearest_frames(starts, ons[k - 1]) * bpm
            <= 900 {
            1nat
        } else {
            0nat
        })
    }
}

/// The row a frame falls into.
pub open spec fn enclosing(starts: Seq<u32>, t: u32) -> nat {
    let i = row_at(starts, t, 0);
    if i < starts.len() && starts[i as int] == t {
        i
    } else if i > 0 {
        (i - 1) as nat
    } else {
        0
    }
}

/// Collisions counted so far, and the last row struck on each channel.
pub open spec fn collisions_on(
    t: Seq<FrameTrace>,
    starts: Seq<u32>,
    i: nat,
    c: nat,
) -> (nat, Seq<Option<nat>>)
    decreases i, c,
{
    if c > 0 {
        let (n, last) = collisions_on(t, starts, i, (c - 1) as nat);
        if i < t.len() && trace::strikes(t[i as int], c - 1) {
            let r = enclosing(starts, t[i as int].frame);
            (
                if last[c - 1] == Some(r) {
                    n + 1
                } else {
                    n
                },
                last.update(c - 1, Some(r)),
            )
        } else {
            (n, last)
        }
    } else if i > 0 {
        collisions_on(t, starts, (i - 1) as nat, CHANNELS as nat)
    } else {
        (0, Seq::new(CHANNELS as nat, |d: int| None))
    }
}

/// Onsets that share a row with an earlier one on the same channel.
pub open spec fn collision_count(t: Seq<FrameTrace>, starts: Seq<u32>) -> nat {
    collisions_on(t, starts, t.len(), 0).0
}

/// The grid of a frame table.
pub open spec fn grid_of(t: Seq<FrameTrace>, bpm: Option<u16>) -> GridView {
    let ons = trace::onset_frames(t, t.len());
    let last = if t.len() > 0 {
        t.last().frame
    } else {
        0
    };
    let phase = if ons.len() > 0 {
        ons[0]
    } else {
        0
    };
    match bpm {
        Some(b) => GridView {
            bpm: b,
            phase,
            starts: alignment(b, phase, last, ons).0,
            fit: Fit::Told,
        },
        None => if ons.len() < 2 {
            GridView {
                bpm: 150,
                phase,
                starts: rows_from(speed_of(150), phase as nat, last as nat, 0),
                fit: Fit::Guessed { worst_frames: 0, collisions: 0 },
            }
        } else {
            let b0 = rough_bpm(coarse(ons, phase));
            let lo = if b0 < 5 {
                1int
            } else {
                b0 - 4
            };
            let hi = if b0 + 4 > 900 {
                900int
            } else {
                b0 + 4
            };
            let k = (hi - lo + 1) as nat;
            let e = errors(lo as u16, phase, last, ons, k);
            let least = least_error(e, k);
            let ties = tied(e, lo as u16, least, k);
            let best = ties[ties.len() as int / 2];
            let starts = alignment(best, phase, last, ons).0;
            let worst = worst_frames(starts, ons, ons.len());
            let near = within(starts, ons, best, ons.len());
            GridView {
                bpm: best,
                phase,
                starts,
                fit: if least == 0 {
                    Fit::Exact {
                        ambiguous: if ties.len() > 1 {
                            Some((ties[0], ties.last()))
                        } else {
                            None
                        },
                    }
                } else if 20 * near >= 19 * ons.len() {
                    Fit::Fitted {
                        worst_frames: worst,
                        within: near as usize,
                        of: ons.len() as usize,
                    }
                } else {
                    Fit::Guessed {
                        worst_frames: worst,
                        collisions: collision_count(t, starts) as u64,
                    }
                },
            }
        },
    }
}

fn find_worst_frames(starts: &Vec<u32>, ons: &Vec<u32>) -> (r: u32)
    requires
        climbing(starts@),
    ensures
        r == worst_frames(starts@, ons@, ons@.len()),
{
    let mut w: u32 = 0;
    for k in 0..ons.len()
        invariant
            climbing(starts@),
            w == worst_frames(starts@, ons@, k as nat),
    {
        let d: u32 = nearest(starts, ons[k]);
        if d > w {
            w = d;
        }
    }
    w
}

fn count_within(starts: &Vec<u32>, ons: &Vec<u32>, bpm: u16) -> (r: usize)
    requires
        climbing(starts@),
    ensures
        r == within(starts@, ons@, bpm, ons@.len()),
        r <= ons@.len(),
{
    let mut n: usize = 0;
    for k in 0..ons.len()
        invariant
            climbing(starts@),
            n == within(starts@, ons@, bpm, k as nat),
            n <= k,
    {
        let d: u32 = nearest(starts, ons[k]);
        assert(4 * d * bpm <= 4 * 0xffff_ffff * 0xffff) by (nonlinear_arith)
            requires
                d <= 0xffff_ffff,
                bpm <= 0xffff,
        ;
        if 4 * d as u64 * bpm as u64 <= 900 {
            n += 1;
        }
    }
    n
}

fn find_enclosing(starts: &Vec<u32>, t: u32) -> (r: usize)
    requires
        climbing(starts@),
    ensures
        r == enclosing(starts@, t),
{
    let i: usize = find_row(starts, t);
    if i < starts.len() && starts[i] == t {
        i
    } else if i > 0 {
        i - 1
    } else {
        0
    }
}

pub open spec fn rows_seen(v: Seq<Option<usize>>) -> Seq<Option<nat>> {
    v.map_values(
        |r: Option<usize>|
            match r {
                Some(x) => Some(x as nat),
                None => None,
            },
    )
}

fn collisions(t: &[FrameTrace], starts: &Vec<u32>) -> (r: u64)
    requires
        climbing(starts@),
        t@.len() <= u32::MAX,
    ensures
        r == collision_count(t@, starts@),
{
    let mut n: u64 = 0;
    let mut last: [Option<usize>; CHANNELS] = [None; CHANNELS];
    assert(rows_seen(last@) =~= Seq::new(CHANNELS as nat, |d: int| None::<nat>));
    for i in 0..t.len()
        invariant
            climbing(starts@),
            t@.len() <= u32::MAX,
            (n as nat, rows_seen(last@)) == collisions_on(t@, starts@, i as nat, 0),
            n <= 5 * i,
    {
        for c in 0..CHANNELS
            invariant
                climbing(starts@),
                t@.len() <= u32::MAX,
                i < t@.len(),
                (n as nat, rows_seen(last@)) == collisions_on(t@, starts@, i as nat, c as nat),
                n <= 5 * i + c,
        {
            if trace::does_strike(&t[i], c) {
                let r: usize = find_enclosing(starts, t[i].frame);
                let ghost before = last@;
                assert(rows_seen(before)[c as int] == (match before[c as int] {
                    Some(x) => Some(x as nat),
                    None => None,
                }));
                if let Some(p) = last[c] {
                    if p == r {
                        n += 1;
                    }
                }
                last[c] = Some(r);
                assert(rows_seen(last@) =~= rows_seen(before).update(c as int, Some(r as nat)));
            }
        }
    }
    n
}

/// How far off each tempo is, and the least of it.
fn score(lo: u16, k: usize, phase: u32, last: u32, ons: &Vec<u32>) -> (r: (Vec<u64>, u64))
    requires
        last < u32::MAX,
        ons@.len() <= u32::MAX,
        1 <= k <= 9,
        lo + k <= 901,
    ensures
        r.0@.len() == k,
        r.0@.map_values(|e: u64| e as nat) == errors(lo, phase, last, ons@, k as nat),
        r.1 == least_error(errors(lo, phase, last, ons@, k as nat), k as nat),
{
    let ghost want = errors(lo, phase, last, ons@, k as nat);
    let mut out: Vec<u64> = Vec::new();
    let mut least: u64 = u64::MAX;
    for i in 0..k
        invariant
            last < u32::MAX,
            ons@.len() <= u32::MAX,
            lo + k <= 901,
            want == errors(lo, phase, last, ons@, k as nat),
            out@.len() == i,
            forall|j: int| 0 <= j < i ==> #[trigger] out@[j] == want[j],
            i > 0 ==> least == least_error(want, i as nat),
    {
        let (_, e): (Vec<u32>, u64) = best_alignment(lo + i as u16, phase, last, ons);
        assert(e == want[i as int]);
        if i == 0 || e < least {
            least = e;
        }
        out.push(e);
    }
    assert(out@.map_values(|e: u64| e as nat) =~= want);
    (out, least)
}

proof fn lemma_least_error(e: Seq<nat>, k: nat) -> (i: int)
    requires
        1 <= k <= e.len(),
    ensures
        0 <= i < k,
        e[i] == least_error(e, k),
    decreases k,
{
    if k == 1 {
        0
    } else {
        let j = lemma_least_error(e, (k - 1) as nat);
        if e[k - 1] < least_error(e, (k - 1) as nat) {
            k - 1
        } else {
            j
        }
    }
}

proof fn lemma_tied_some(e: Seq<nat>, lo: u16, least: nat, k: nat, i: int)
    requires
        0 <= i < k,
        k <= e.len(),
        e[i] == least,
    ensures
        tied(e, lo, least, k).len() > 0,
    decreases k,
{
    if i < k - 1 {
        lemma_tied_some(e, lo, least, (k - 1) as nat, i);
    }
}

fn find_tied(e: &Vec<u64>, lo: u16, least: u64) -> (r: Vec<u16>)
    requires
        lo + e@.len() <= 901,
    ensures
        r@ == tied(e@.map_values(|x: u64| x as nat), lo, least as nat, e@.len()),
{
    let ghost all = e@.map_values(|x: u64| x as nat);
    let mut out: Vec<u16> = Vec::new();
    for k in 0..e.len()
        invariant
            lo + e@.len() <= 901,
            all == e@.map_values(|x: u64| x as nat),
            out@ == tied(all, lo, least as nat, k as nat),
    {
        assert(all[k as int] == e@[k as int]);
        if e[k] == least {
            out.push(lo + k as u16);
        }
    }
    out
}

/// A fit whose shares are of something.
pub open spec fn sound_fit(f: Fit) -> bool {
    match f {
        Fit::Fitted { within, of, .. } => 0 < of <= u32::MAX && within <= of,
        _ => true,
    }
}

/// Finds the row grid a driver was using.
pub fn fit_grid(t: &[FrameTrace], bpm: Option<u16>) -> (r: Grid)
    requires
        trace::in_order(t@),
    ensures
        r@ == grid_of(t@, bpm),
        climbing(r.starts@),
        sound_fit(r.fit),
{
    let ons: Vec<u32> = trace::onsets(t);
    proof {
        trace::lemma_onsets_ordered(t@, t@.len());
    }
    let last: u32 = if t.len() > 0 {
        t[t.len() - 1].frame
    } else {
        0
    };
    let phase: u32 = if ons.len() > 0 {
        ons[0]
    } else {
        0
    };
    assert(last < u32::MAX) by {
        if t@.len() > 0 {
            assert(t@[t@.len() - 1].frame < u32::MAX);
        }
    }
    if let Some(b) = bpm {
        let (starts, _): (Vec<u32>, u64) = best_alignment(b, phase, last, &ons);
        return Grid { bpm: b, phase, starts, fit: Fit::Told };
    }
    if ons.len() < 2 {
        let starts: Vec<u32> = clock_rows(find_speed(150), phase, last, 0);
        return Grid {
            bpm: 150,
            phase,
            starts,
            fit: Fit::Guessed { worst_frames: 0, collisions: 0 },
        };
    }
    assert forall|i: int| 0 <= i < ons@.len() implies phase <= #[trigger] ons@[i] by {
        assert(ons@[0] <= ons@[i]);
    }
    let n: u64 = find_coarse(&ons, phase);
    let b0: u64 = (230_400 + n) / (2 * n);
    assert(28 <= b0 <= 601) by (nonlinear_arith)
        requires
            b0 == (230_400 + n) / (2 * n),
            192 <= n <= 4096,
    ;
    let lo: u16 = if b0 < 5 {
        1
    } else {
        (b0 - 4) as u16
    };
    let hi: u16 = if b0 + 4 > 900 {
        900
    } else {
        (b0 + 4) as u16
    };
    let k: usize = (hi - lo + 1) as usize;
    let (errs, least): (Vec<u64>, u64) = score(lo, k, phase, last, &ons);
    let ghost e = errors(lo, phase, last, ons@, k as nat);
    let ties: Vec<u16> = find_tied(&errs, lo, least);
    proof {
        let i = lemma_least_error(e, k as nat);
        lemma_tied_some(e, lo, least as nat, k as nat, i);
    }
    let best: u16 = ties[ties.len() / 2];
    let (starts, _): (Vec<u32>, u64) = best_alignment(best, phase, last, &ons);
    let worst: u32 = find_worst_frames(&starts, &ons);
    let near: usize = count_within(&starts, &ons, best);
    let fit: Fit = if least == 0 {
        Fit::Exact {
            ambiguous: if ties.len() > 1 {
                Some((ties[0], ties[ties.len() - 1]))
            } else {
                None
            },
        }
    } else if 20 * near as u64 >= 19 * ons.len() as u64 {
        Fit::Fitted { worst_frames: worst, within: near, of: ons.len() }
    } else {
        Fit::Guessed { worst_frames: worst, collisions: collisions(t, &starts) }
    };
    Grid { bpm: best, phase, starts, fit }
}

/// A fit is called exact only where every onset lands on a row start.
pub proof fn law_exact_means_every_onset(t: Seq<FrameTrace>, j: int)
    requires
        trace::in_order(t),
        grid_of(t, None).fit is Exact,
        0 <= j < trace::onset_frames(t, t.len()).len(),
    ensures
        nearest_frames(grid_of(t, None).starts, trace::onset_frames(t, t.len())[j]) == 0,
{
    let ons = trace::onset_frames(t, t.len());
    let last = t.last().frame;
    let phase = ons[0];
    let n = coarse(ons, phase);
    lemma_coarse(ons, phase);
    let b0 = rough_bpm(n);
    assert(28 <= b0 <= 601) by (nonlinear_arith)
        requires
            b0 == (230_400 + n as int) / (2 * n as int),
            192 <= n <= 4096,
    ;
    let lo = b0 - 4;
    let e = errors(lo as u16, phase, last, ons, 9);
    let least = least_error(e, 9);
    let ties = tied(e, lo as u16, least, 9);
    let i = lemma_least_error(e, 9);
    lemma_tied_some(e, lo as u16, least, 9, i);
    let best = ties[ties.len() as int / 2];
    lemma_tied_least(e, lo as u16, least, 9, ties.len() as int / 2);
    let (starts, err) = alignment(best, phase, last, ons);
    assert(err == e[best - lo]);
    let speed = speed_of(best);
    let rs = residuals_of(speed);
    lemma_aligned(speed, phase, (last + 1) as u32, ons, rs, rs.len());
    lemma_no_error(starts, ons, ons.len(), j);
}

proof fn lemma_coarse(ons: Seq<u32>, phase: u32)
    ensures
        192 <= coarse(ons, phase) <= 4096,
{
    lemma_sweep(ons, phase, 3905);
}

proof fn lemma_sweep(ons: Seq<u32>, phase: u32, j: nat)
    requires
        j <= 3905,
    ensures
        sweep(ons, phase, j).fits is Some ==> 192 <= sweep(ons, phase, j).fits->0 <= 4096,
        sweep(ons, phase, j).least_bad is Some ==> 192 <= (sweep(ons, phase, j).least_bad->0).1
            <= 4096,
    decreases j,
{
    if j > 0 {
        lemma_sweep(ons, phase, (j - 1) as nat);
    }
}

proof fn lemma_tied_least(e: Seq<nat>, lo: u16, least: nat, k: nat, i: int)
    requires
        k <= e.len(),
        lo + k <= u16::MAX,
        0 <= i < tied(e, lo, least, k).len(),
    ensures
        lo <= tied(e, lo, least, k)[i] < lo + k,
        e[tied(e, lo, least, k)[i] - lo] == least,
    decreases k,
{
    if k > 0 {
        let before = tied(e, lo, least, (k - 1) as nat);
        if i < before.len() {
            lemma_tied_least(e, lo, least, (k - 1) as nat, i);
        }
    }
}

/// The error of an alignment is that of its rows.
proof fn lemma_aligned(
    speed: int,
    phase: u32,
    until: u32,
    ons: Seq<u32>,
    rs: Seq<int>,
    k: nat,
)
    ensures
        ({
            let (starts, err) = aligned(speed, phase, until, ons, rs, k);
            err == u64::MAX || err == total_error(starts, ons, ons.len())
        }),
    decreases k,
{
    if k > 0 {
        lemma_aligned(speed, phase, until, ons, rs, (k - 1) as nat);
    }
}

proof fn lemma_no_error(starts: Seq<u32>, ons: Seq<u32>, k: nat, j: int)
    requires
        0 <= j < k,
        k <= ons.len(),
        total_error(starts, ons, k) == 0,
    ensures
        nearest_frames(starts, ons[j]) == 0,
    decreases k,
{
    if j < k - 1 {
        lemma_no_error(starts, ons, (k - 1) as nat, j);
    }
}

} // verus!
