//! Periods, notes, and what a pitch does inside a note.

use vstd::prelude::*;

use crate::rip::trace;
use crate::rip::trace::{FrameTrace, TRI};
use crate::song::CHANNELS;

verus! {

/// For each note, the largest pulse period at which it or a higher note
/// sounds: a pulse at period `p` sounds at 1789773 / (16 (p + 1)) Hz, and the
/// note is the nearest in equal temperament with A-4 at 440 Hz.
pub const PITCH_TOPS: [u32; 129] = [
    14081, 13291, 12545, 11841, 11176, 10549, 9957, 9398, 8870, 8372, 7902, 7459, 7040, 6645, 6272,
    5920, 5587, 5274, 4978, 4698, 4434, 4185, 3950, 3729, 3519, 3322, 3135, 2959, 2793, 2636, 2488,
    2348, 2216, 2092, 1974, 1864, 1759, 1660, 1567, 1479, 1396, 1317, 1243, 1173, 1107, 1045, 986,
    931, 879, 829, 783, 739, 697, 658, 621, 586, 553, 522, 492, 465, 439, 414, 391, 369, 348, 328,
    310, 292, 276, 260, 245, 232, 219, 206, 195, 184, 173, 163, 154, 145, 137, 129, 122, 115, 109,
    102, 97, 91, 86, 81, 76, 72, 68, 64, 60, 57, 54, 50, 48, 45, 42, 40, 37, 35, 33, 31, 29, 28,
    26, 24, 23, 22, 20, 19, 18, 17, 16, 15, 14, 13, 12, 11, 11, 10, 9, 9, 8, 8, 7,
];

/// The highest of the first `n` notes that a pulse reaches at period `q`.
pub open spec fn note_below(q: nat, n: nat) -> Option<nat>
    decreases n,
{
    if n == 0 {
        None
    } else if q <= PITCH_TOPS@[n - 1] {
        Some((n - 1) as nat)
    } else {
        note_below(q, (n - 1) as nat)
    }
}

/// The note of a pulse period, where it is one of 0 to 127.
pub open spec fn note_at(q: nat) -> Option<u8> {
    match note_below(q, 129) {
        None => None,
        Some(n) => if n >= 128 {
            None
        } else {
            Some(n as u8)
        },
    }
}

fn find_note(q: u32) -> (r: Option<u8>)
    ensures
        r == note_at(q as nat),
        r is Some ==> r->0 < 128,
{
    let mut n: usize = 129;
    while n > 0
        invariant
            n <= 129,
            note_below(q as nat, 129) == note_below(q as nat, n as nat),
        decreases n,
    {
        if q <= PITCH_TOPS[n - 1] {
            if n - 1 >= 128 {
                return None;
            }
            return Some((n - 1) as u8);
        }
        n -= 1;
    }
    None
}

/// The note of a pulse; none where the hardware mutes it.
pub open spec fn pulse_pitch(p: u16) -> Option<u8> {
    if p < 8 {
        None
    } else {
        note_at(p as nat)
    }
}

/// The note of the triangle, which divides by 32 rather than 16.
pub open spec fn tri_pitch(p: u16) -> Option<u8> {
    if p < 2 {
        None
    } else {
        note_at((2 * p + 1) as nat)
    }
}

/// A pulse period back to a note.
pub fn pulse_note(p: u16) -> (r: Option<u8>)
    ensures
        r == pulse_pitch(p),
        r is Some ==> r->0 < 128,
{
    if p < 8 {
        return None;
    }
    find_note(p as u32)
}

/// A triangle period back to a note.
pub fn tri_note(p: u16) -> (r: Option<u8>)
    ensures
        r == tri_pitch(p),
        r is Some ==> r->0 < 128,
{
    if p < 2 {
        return None;
    }
    find_note(2 * p as u32 + 1)
}

/// A pitch on a pulse or the triangle.
pub open spec fn pitch_of(c: usize, p: u16) -> Option<u8> {
    if c == TRI {
        tri_pitch(p)
    } else {
        pulse_pitch(p)
    }
}

pub fn note_of(c: usize, p: u16) -> (r: Option<u8>)
    ensures
        r == pitch_of(c, p),
        r is Some ==> r->0 < 128,
{
    if c == TRI {
        tri_note(p)
    } else {
        pulse_note(p)
    }
}

/// A longer period never sounds a higher note.
pub proof fn law_longer_periods_sound_lower(p: u16, q: u16)
    requires
        p <= q,
        pulse_pitch(p) is Some,
        pulse_pitch(q) is Some,
    ensures
        pulse_pitch(q)->0 <= pulse_pitch(p)->0,
{
    lemma_note_below(p as nat, q as nat, 129);
}

proof fn lemma_note_below(p: nat, q: nat, n: nat)
    requires
        p <= q,
        note_below(q, n) is Some,
    ensures
        note_below(p, n) is Some,
        note_below(q, n)->0 <= note_below(p, n)->0,
        note_below(p, n)->0 < n,
    decreases n,
{
    if n > 0 {
        if q > PITCH_TOPS@[n - 1] {
            lemma_note_below(p, q, (n - 1) as nat);
        }
    }
}

/// The note that a noise period index stands for: the top of the four that
/// share it.
pub open spec fn noise_pitch(idx: u16) -> u8 {
    let i = if idx > 15 {
        15
    } else {
        idx as int
    };
    (36 + 4 * (15 - i) + 3) as u8
}

pub fn noise_note(idx: u16) -> (r: u8)
    ensures
        r == noise_pitch(idx),
{
    let i: u8 = if idx > 15 {
        15
    } else {
        idx as u8
    };
    36 + 4 * (15 - i) + 3
}

// ---------------------------------------------------------------- motion

/// What the pitch does inside one note.
#[derive(Clone, Copy, Debug, PartialEq, Eq, Structural)]
pub enum Motion {
    Steady,
    /// The period wobbles around the note by less than a semitone.
    Vibrato { depth: u8, rate: u8 },
    /// The period cycles through the note and two offsets from it.
    Arpeggio { x: u8, y: u8 },
    /// The period walks to a new pitch by so many units per frame.
    Slide { speed: u8 },
}

/// The smallest of the first `k` periods.
pub open spec fn least(p: Seq<u16>, k: nat) -> u16
    decreases k,
{
    if k <= 1 {
        p[0]
    } else {
        let b = least(p, (k - 1) as nat);
        if p[k - 1] < b {
            p[k - 1]
        } else {
            b
        }
    }
}

/// The largest of the first `k` periods.
pub open spec fn greatest(p: Seq<u16>, k: nat) -> u16
    decreases k,
{
    if k <= 1 {
        p[0]
    } else {
        let b = greatest(p, (k - 1) as nat);
        if p[k - 1] > b {
            p[k - 1]
        } else {
            b
        }
    }
}

fn extremes(p: &Vec<u16>) -> (r: (u16, u16))
    requires
        p@.len() > 0,
    ensures
        r.0 == least(p@, p@.len()),
        r.1 == greatest(p@, p@.len()),
        r.0 <= r.1,
{
    let mut lo: u16 = p[0];
    let mut hi: u16 = p[0];
    for i in 1..p.len()
        invariant
            1 <= i <= p@.len(),
            lo == least(p@, i as nat),
            hi == greatest(p@, i as nat),
            lo <= hi,
    {
        if p[i] < lo {
            lo = p[i];
        }
        if p[i] > hi {
            hi = p[i];
        }
    }
    (lo, hi)
}

/// The notes of the first `k` periods that have one.
pub open spec fn pitches(p: Seq<u16>, c: usize, k: nat) -> Seq<u8>
    decreases k,
{
    if k == 0 {
        Seq::empty()
    } else {
        let before = pitches(p, c, (k - 1) as nat);
        match pitch_of(c, p[k - 1]) {
            Some(n) => before.push(n),
            None => before,
        }
    }
}

pub fn pitches_of(p: &Vec<u16>, c: usize) -> (r: Vec<u8>)
    ensures
        r@ == pitches(p@, c, p@.len()),
        forall|i: int| 0 <= i < r@.len() ==> #[trigger] r@[i] < 128,
{
    let mut out: Vec<u8> = Vec::new();
    for i in 0..p.len()
        invariant
            out@ == pitches(p@, c, i as nat),
            forall|j: int| 0 <= j < out@.len() ==> #[trigger] out@[j] < 128,
    {
        if let Some(n) = note_of(c, p[i]) {
            out.push(n);
        }
    }
    out
}

/// How often a note stands among the first `k`.
pub open spec fn times(v: Seq<u8>, n: u8, k: nat) -> nat
    decreases k,
{
    if k == 0 {
        0
    } else {
        times(v, n, (k - 1) as nat) + (if v[k - 1] == n {
            1nat
        } else {
            0nat
        })
    }
}

fn count_times(v: &Vec<u8>, n: u8) -> (r: usize)
    ensures
        r == times(v@, n, v@.len()),
        r <= v@.len(),
{
    let mut t: usize = 0;
    for i in 0..v.len()
        invariant
            t == times(v@, n, i as nat),
            t <= i,
    {
        if v[i] == n {
            t += 1;
        }
    }
    t
}

/// The notes below `n` that are visited, not just passed through: those that
/// stand at least twice, lowest first.
pub open spec fn visited(v: Seq<u8>, n: nat) -> Seq<u8>
    decreases n,
{
    if n == 0 {
        Seq::empty()
    } else {
        let before = visited(v, (n - 1) as nat);
        if times(v, (n - 1) as u8, v.len()) >= 2 {
            before.push((n - 1) as u8)
        } else {
            before
        }
    }
}

/// On how many of the first `k` frames a visited note sounds.
pub open spec fn visits(v: Seq<u8>, k: nat) -> nat
    decreases k,
{
    if k == 0 {
        0
    } else {
        visits(v, (k - 1) as nat) + (if times(v, v[k - 1], v.len()) >= 2 {
            1nat
        } else {
            0nat
        })
    }
}

/// How long the note that ends the first `k` has sounded.
pub open spec fn run_at(v: Seq<u8>, k: nat) -> nat
    decreases k,
{
    if k == 0 {
        0
    } else if k > 1 && v[k - 1] == v[k - 2] {
        run_at(v, (k - 1) as nat) + 1
    } else {
        1
    }
}

/// The longest time any note sounds among the first `k`.
pub open spec fn longest_run(v: Seq<u8>, k: nat) -> nat
    decreases k,
{
    if k == 0 {
        0
    } else {
        let b = longest_run(v, (k - 1) as nat);
        if run_at(v, k) > b {
            run_at(v, k)
        } else {
            b
        }
    }
}

fn visited_of(v: &Vec<u8>) -> (r: Vec<u8>)
    ensures
        r@ == visited(v@, 128),
{
    let mut out: Vec<u8> = Vec::new();
    for n in 0..128u8
        invariant
            out@ == visited(v@, n as nat),
    {
        if count_times(v, n) >= 2 {
            out.push(n);
        }
    }
    out
}

fn count_visits(v: &Vec<u8>) -> (r: usize)
    ensures
        r == visits(v@, v@.len()),
{
    let mut t: usize = 0;
    for i in 0..v.len()
        invariant
            t == visits(v@, i as nat),
            t <= i,
    {
        if count_times(v, v[i]) >= 2 {
            t += 1;
        }
    }
    t
}

fn find_longest_run(v: &Vec<u8>) -> (r: usize)
    ensures
        r == longest_run(v@, v@.len()),
{
    let mut best: usize = 0;
    let mut run: usize = 0;
    for i in 0..v.len()
        invariant
            best == longest_run(v@, i as nat),
            run == run_at(v@, i as nat),
            run <= i,
            best <= i,
    {
        if i > 0 && v[i] == v[i - 1] {
            run = run + 1;
        } else {
            run = 1;
        }
        if run > best {
            best = run;
        }
    }
    best
}

/// The arpeggio that notes play: two or three visited pitches that change
/// every frame. The root is the lowest.
pub open spec fn arpeggio(v: Seq<u8>) -> Option<(u8, u8)> {
    let d = visited(v, 128);
    if 2 <= d.len() <= 3 && visits(v, v.len()) >= 4 && longest_run(v, v.len()) <= 2 {
        Some((offset(d, 1), offset(d, 2)))
    } else {
        None
    }
}

pub open spec fn offset(d: Seq<u8>, i: int) -> u8 {
    if i < d.len() {
        if d[i] <= d[0] {
            0
        } else if d[i] - d[0] > 15 {
            15
        } else {
            (d[i] - d[0]) as u8
        }
    } else {
        0
    }
}

fn offset_of(d: &Vec<u8>, i: usize) -> (r: u8)
    requires
        d@.len() > 0,
    ensures
        r == offset(d@, i as int),
        r <= 15,
{
    if i < d.len() {
        if d[i] <= d[0] {
            0
        } else if d[i] - d[0] > 15 {
            15
        } else {
            d[i] - d[0]
        }
    } else {
        0
    }
}

fn find_arpeggio(v: &Vec<u8>) -> (r: Option<(u8, u8)>)
    ensures
        r == arpeggio(v@),
        r is Some ==> (r->0).0 <= 15 && (r->0).1 <= 15,
{
    let d: Vec<u8> = visited_of(v);
    if 2 <= d.len() && d.len() <= 3 && count_visits(v) >= 4 && find_longest_run(v) <= 2 {
        Some((offset_of(&d, 1), offset_of(&d, 2)))
    } else {
        None
    }
}

/// Whether the first few steps never go up.
pub open spec fn falls(p: Seq<u16>) -> bool {
    forall|i: int| 0 <= i < 4 && i + 1 < p.len() ==> #[trigger] p[i] >= p[i + 1]
}

/// Whether the first few steps never go down.
pub open spec fn rises(p: Seq<u16>) -> bool {
    forall|i: int| 0 <= i < 4 && i + 1 < p.len() ==> #[trigger] p[i] <= p[i + 1]
}

pub open spec fn distance(a: u16, b: u16) -> int {
    if a < b {
        b - a
    } else {
        a - b
    }
}

/// The slide that periods play: one way, to another note; its first step is
/// its speed.
pub open spec fn slide(p: Seq<u16>, c: usize) -> Option<u8> {
    let first = distance(p[0], p[1]);
    if pitch_of(c, p[0]) != pitch_of(c, p.last()) && first > 0 && (falls(p) || rises(p)) {
        Some(
            if first > 255 {
                255
            } else {
                first as u8
            },
        )
    } else {
        None
    }
}

fn one_way(p: &Vec<u16>, down: bool) -> (r: bool)
    ensures
        down ==> r == falls(p@),
        !down ==> r == rises(p@),
{
    let mut i: usize = 0;
    while i < 4 && i + 1 < p.len()
        invariant
            i <= 4,
            i < p@.len() || p@.len() == 0,
            down ==> forall|j: int| 0 <= j < i ==> #[trigger] p@[j] >= p@[j + 1],
            !down ==> forall|j: int| 0 <= j < i ==> #[trigger] p@[j] <= p@[j + 1],
        decreases 4 - i,
    {
        if (down && p[i] < p[i + 1]) || (!down && p[i] > p[i + 1]) {
            return false;
        }
        i += 1;
    }
    true
}

fn same_pitch(a: Option<u8>, b: Option<u8>) -> (r: bool)
    ensures
        r == (a == b),
{
    match (a, b) {
        (Some(x), Some(y)) => x == y,
        (None, None) => true,
        _ => false,
    }
}

fn find_slide(p: &Vec<u16>, c: usize) -> (r: Option<u8>)
    requires
        p@.len() >= 2,
    ensures
        r == slide(p@, c),
{
    let first: u16 = if p[0] < p[1] {
        p[1] - p[0]
    } else {
        p[0] - p[1]
    };
    let last: u16 = p[p.len() - 1];
    if !same_pitch(note_of(c, p[0]), note_of(c, last)) && first > 0 && (one_way(p, true)
        || one_way(p, false)) {
        Some(
            if first > 255 {
                255
            } else {
                first as u8
            },
        )
    } else {
        None
    }
}

/// The first gap of more than one frame between returns to the lowest
/// period, from `i` on, after a return at `last`.
pub open spec fn cycle(p: Seq<u16>, lo: u16, i: nat, last: Option<nat>) -> nat
    decreases p.len() - i,
{
    if i >= p.len() {
        0
    } else if p[i as int] == lo {
        match last {
            Some(l) => if i - l > 1 {
                (i - l) as nat
            } else {
                cycle(p, lo, i + 1, Some(i))
            },
            None => cycle(p, lo, i + 1, Some(i)),
        }
    } else {
        cycle(p, lo, i + 1, last)
    }
}

fn find_cycle(p: &Vec<u16>, lo: u16) -> (r: usize)
    ensures
        r == cycle(p@, lo, 0, None),
{
    let mut last: Option<usize> = None;
    let mut i: usize = 0;
    while i < p.len()
        invariant
            i <= p@.len(),
            last is Some ==> last->0 < i,
            cycle(p@, lo, 0, None) == cycle(
                p@,
                lo,
                i as nat,
                match last {
                    Some(l) => Some(l as nat),
                    None => None,
                },
            ),
        decreases p@.len() - i,
    {
        if p[i] == lo {
            if let Some(l) = last {
                if i - l > 1 {
                    return i - l;
                }
            }
            last = Some(i);
        }
        i += 1;
    }
    0
}

/// The motion that the periods of one note show.
pub open spec fn motion(p: Seq<u16>, c: usize) -> Motion {
    if p.len() < 3 {
        Motion::Steady
    } else {
        let lo = least(p, p.len());
        let hi = greatest(p, p.len());
        if lo == hi {
            Motion::Steady
        } else {
            match arpeggio(pitches(p, c, p.len())) {
                Some((x, y)) => Motion::Arpeggio { x, y },
                None => match slide(p, c) {
                    Some(speed) => Motion::Slide { speed },
                    None => {
                        let n = cycle(p, lo, 0, None);
                        if hi - lo < 32 && n > 0 {
                            Motion::Vibrato {
                                depth: if hi - lo + 1 > 15 {
                                    15
                                } else {
                                    (hi - lo + 1) as u8
                                },
                                rate: if 32nat / n < 1 {
                                    1
                                } else if 32nat / n > 15 {
                                    15
                                } else {
                                    (32nat / n) as u8
                                },
                            }
                        } else {
                            Motion::Steady
                        }
                    },
                },
            }
        }
    }
}

/// Reads the pitch motion out of one note's periods.
pub fn classify(p: &Vec<u16>, c: usize) -> (r: Motion)
    ensures
        r == motion(p@, c),
        in_nibbles(r),
{
    if p.len() < 3 {
        return Motion::Steady;
    }
    let (lo, hi): (u16, u16) = extremes(p);
    if lo == hi {
        return Motion::Steady;
    }
    let notes: Vec<u8> = pitches_of(p, c);
    if let Some((x, y)) = find_arpeggio(&notes) {
        return Motion::Arpeggio { x, y };
    }
    if let Some(speed) = find_slide(p, c) {
        return Motion::Slide { speed };
    }
    if hi - lo < 32 {
        let n: usize = find_cycle(p, lo);
        if n > 0 {
            let rate: usize = 32 / n;
            let depth: u16 = hi - lo + 1;
            return Motion::Vibrato {
                depth: if depth > 15 {
                    15
                } else {
                    depth as u8
                },
                rate: if rate < 1 {
                    1
                } else if rate > 15 {
                    15
                } else {
                    rate as u8
                },
            };
        }
    }
    Motion::Steady
}

/// Whether a motion's parameters fit in half a byte each.
pub open spec fn in_nibbles(m: Motion) -> bool {
    match m {
        Motion::Vibrato { depth, rate } => depth <= 15 && rate <= 15,
        Motion::Arpeggio { x, y } => x <= 15 && y <= 15,
        _ => true,
    }
}

/// The effect column a motion writes.
pub open spec fn effect(m: Motion) -> Option<(u8, u8)> {
    match m {
        Motion::Steady => None,
        Motion::Vibrato { depth, rate } => Some((0x56, (depth * 16 + rate) as u8)),
        Motion::Arpeggio { x, y } => Some((0x41, (x * 16 + y) as u8)),
        Motion::Slide { speed } => Some((0x53, speed)),
    }
}

impl Motion {
    pub fn fx(self) -> (r: Option<(u8, u8)>)
        requires
            in_nibbles(self),
        ensures
            r == effect(self),
    {
        match self {
            Motion::Steady => None,
            Motion::Vibrato { depth, rate } => Some((0x56, depth * 16 + rate)),
            Motion::Arpeggio { x, y } => Some((0x41, x * 16 + y)),
            Motion::Slide { speed } => Some((0x53, speed)),
        }
    }
}

// ---------------------------------------------------------------- one note's frames

/// The first entry from `i` on at or after a frame.
pub open spec fn entry_at(t: Seq<FrameTrace>, from: u32, i: nat) -> nat
    decreases t.len() - i,
{
    if i >= t.len() || t[i as int].frame >= from {
        i
    } else {
        entry_at(t, from, i + 1)
    }
}

pub fn find_entry(t: &[FrameTrace], from: u32) -> (r: usize)
    ensures
        r == entry_at(t@, from, 0),
        r <= t@.len(),
{
    let mut i: usize = 0;
    while i < t.len() && t[i].frame < from
        invariant
            i <= t@.len(),
            entry_at(t@, from, 0) == entry_at(t@, from, i as nat),
        decreases t@.len() - i,
    {
        i += 1;
    }
    i
}

/// The periods a note plays while it is still that note: until the channel
/// is struck again or falls silent, and until the pitch has stayed elsewhere
/// for two frames.
pub open spec fn note_periods(
    t: Seq<FrameTrace>,
    c: int,
    from: u32,
    i: nat,
    left: nat,
    out: Seq<u16>,
    home: Option<u8>,
    away: bool,
) -> Seq<u16>
    decreases left,
{
    if left == 0 || i >= t.len() {
        out
    } else {
        let f = t[i as int];
        if (f.frame > from && trace::strikes(f, c)) || f.ch@[c].level == 0 {
            out
        } else {
            let n = pitch_of(c as usize, f.ch@[c].period);
            let h = if home is Some {
                home
            } else {
                n
            };
            if n != h && away {
                out.take(
                    if out.len() == 0 {
                        0
                    } else {
                        out.len() - 1
                    },
                )
            } else {
                note_periods(
                    t,
                    c,
                    from,
                    i + 1,
                    (left - 1) as nat,
                    out.push(f.ch@[c].period),
                    h,
                    n != h,
                )
            }
        }
    }
}

/// The periods of the note that starts on a frame; a cycle of the slowest
/// vibrato at most.
pub open spec fn played_periods(t: Seq<FrameTrace>, c: int, from: u32) -> Seq<u16> {
    note_periods(t, c, from, entry_at(t, from, 0), 32, Seq::empty(), None, false)
}

pub fn periods_played(t: &[FrameTrace], c: usize, from: u32) -> (r: Vec<u16>)
    requires
        c < CHANNELS,
    ensures
        r@ == played_periods(t@, c as int, from),
{
    let mut out: Vec<u16> = Vec::new();
    let mut home: Option<u8> = None;
    let mut away: bool = false;
    let mut i: usize = find_entry(t, from);
    let mut left: usize = 32;
    while left > 0 && i < t.len()
        invariant
            c < CHANNELS,
            i <= t@.len(),
            left <= 32,
            played_periods(t@, c as int, from) == note_periods(
                t@,
                c as int,
                from,
                i as nat,
                left as nat,
                out@,
                home,
                away,
            ),
        decreases left,
    {
        let f: FrameTrace = t[i];
        if (f.frame > from && trace::does_strike(&f, c)) || f.ch[c].level == 0 {
            return out;
        }
        let n: Option<u8> = note_of(c, f.ch[c].period);
        if home.is_none() {
            home = n;
        }
        let moved: bool = !same_pitch(n, home);
        if moved && away {
            if out.len() > 0 {
                let keep: usize = out.len() - 1;
                out.truncate(keep);
            }
            return out;
        }
        away = moved;
        out.push(f.ch[c].period);
        i += 1;
        left -= 1;
    }
    out
}

/// The levels a note plays, until the channel is struck again or falls
/// silent.
pub open spec fn note_levels(
    t: Seq<FrameTrace>,
    c: int,
    from: u32,
    i: nat,
    left: nat,
    out: Seq<u8>,
) -> Seq<u8>
    decreases left,
{
    if left == 0 || i >= t.len() {
        out
    } else {
        let f = t[i as int];
        if f.frame > from && trace::strikes(f, c) {
            out
        } else if f.ch@[c].level == 0 {
            out.push(0)
        } else {
            note_levels(t, c, from, i + 1, (left - 1) as nat, out.push(f.ch@[c].level))
        }
    }
}

/// The levels of the note that starts on a frame; two seconds at most.
pub open spec fn played_levels(t: Seq<FrameTrace>, c: int, from: u32) -> Seq<u8> {
    note_levels(t, c, from, entry_at(t, from, 0), 120, Seq::empty())
}

pub fn played(t: &[FrameTrace], c: usize, from: u32) -> (r: Vec<u8>)
    requires
        c < CHANNELS,
    ensures
        r@ == played_levels(t@, c as int, from),
        r@.len() <= 120,
{
    let mut out: Vec<u8> = Vec::new();
    let mut i: usize = find_entry(t, from);
    let mut left: usize = 120;
    while left > 0 && i < t.len()
        invariant
            c < CHANNELS,
            i <= t@.len(),
            left <= 120,
            out@.len() == 120 - left,
            played_levels(t@, c as int, from) == note_levels(
                t@,
                c as int,
                from,
                i as nat,
                left as nat,
                out@,
            ),
        decreases left,
    {
        let f: FrameTrace = t[i];
        if f.frame > from && trace::does_strike(&f, c) {
            return out;
        }
        out.push(f.ch[c].level);
        if f.ch[c].level == 0 {
            return out;
        }
        i += 1;
        left -= 1;
    }
    out
}

} // verus!
