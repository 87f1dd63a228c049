//! How a transcription plays what the chip did with a note: how loud it was,
//! how it rose and fell, how its pitch moved, and how long it went on.

use vstd::prelude::*;

use crate::compile;
use crate::compile::Event;
use crate::rip::envelope;
use crate::rip::envelope::{EnvView, Voice};
use crate::rip::pitch;
use crate::rip::pitch::Motion;
use crate::rip::ripper;
use crate::rip::trace::FrameTrace;
use crate::rip::transcribe;
use crate::rip::transcribe::PlacedView;
use crate::song::{Cell, Instrument, CHANNELS, INSTRUMENTS};

verus! {

// ---------------------------------------------------------------- volumes

/// Whether an instrument's loudest level is this one: the nearest of fifteen
/// to its volume, but one at least.
pub open spec fn is_peak(peak: int, volume: i32) -> bool {
    &&& peak >= 1
    &&& 1000 * peak <= 15 * volume + 500 || peak == 1
    &&& 15 * volume + 500 < 1000 * (peak + 1)
}

/// A note's volume plays the level that it was struck at on the instrument it
/// was given: a peak goes out sixteenths of itself as loud. Its pitch and its
/// effect are left alone, and so are all other cells.
pub proof fn law_volumes_play_their_levels(
    rows: Seq<Seq<Cell>>,
    p: PlacedView,
    at: usize,
    instruments: Seq<Instrument>,
    peak: int,
)
    requires
        p.row < rows.len(),
        rows[p.row as int].len() == CHANNELS,
        p.env.ch < CHANNELS,
        rows[p.row as int][p.env.ch as int].note is Some,
        p.env.levels.len() > 0,
        at < 16,
        is_peak(peak, instruments[at as int].volume),
        1 <= p.env.levels[0],
        16 * p.env.levels[0] <= 15 * peak,
        peak <= 15,
    ensures
        ({
            let a = rows[p.row as int][p.env.ch as int];
            let b = ripper::voiced(rows, p, at, instruments)[p.row as int][p.env.ch as int];
            &&& peak * b.vol / 16 == p.env.levels[0]
            &&& 1 <= b.vol <= 15
            &&& b.instr == at
            &&& b.note == a.note && b.fx == a.fx && b.hold == a.hold
        }),
{
    let volume = instruments[at as int].volume;
    let level = p.env.levels[0] as int;
    assert(ripper::peak_level(volume) == peak);
    let v = (16 * level + peak - 1) / peak;
    assert(16 * level <= peak * v <= 16 * level + peak - 1) by (nonlinear_arith)
        requires
            v == (16 * level + peak - 1) / peak,
            peak >= 1,
    ;
    assert(1 <= v <= 15) by (nonlinear_arith)
        requires
            16 * level <= peak * v <= 16 * level + peak - 1,
            16 * level <= 15 * peak,
            level >= 1,
            peak >= 1,
    ;
    let b = ripper::voiced(rows, p, at, instruments)[p.row as int][p.env.ch as int];
    assert(b.vol == v);
}

// ---------------------------------------------------------------- envelopes

proof fn lemma_peak_of(v: Seq<u8>, k: nat)
    requires
        k <= v.len(),
    ensures
        forall|i: int| 0 <= i < k ==> (#[trigger] v[i]) <= envelope::peak_of(v, k),
        envelope::peak_of(v, k) > 0 ==> exists|i: int|
            0 <= i < k && #[trigger] v[i] == envelope::peak_of(v, k),
    decreases k,
{
    if k > 0 {
        lemma_peak_of(v, (k - 1) as nat);
        if v[k - 1] <= envelope::peak_of(v, (k - 1) as nat) {
            let b = envelope::peak_of(v, (k - 1) as nat);
            if b > 0 {
                let i = choose|i: int| 0 <= i < k - 1 && #[trigger] v[i] == b;
                assert(v[i] == b);
            }
        } else {
            assert(v[k - 1] == envelope::peak_of(v, k));
        }
    }
}

proof fn lemma_first_of(v: Seq<u8>, x: u8, i: nat)
    requires
        i <= v.len(),
    ensures
        i <= envelope::first_of(v, x, i) <= v.len(),
        envelope::first_of(v, x, i) < v.len() ==> v[envelope::first_of(v, x, i) as int] == x,
        forall|j: int| i <= j < envelope::first_of(v, x, i) ==> #[trigger] v[j] != x,
    decreases v.len() - i,
{
    if i < v.len() && v[i as int] != x {
        lemma_first_of(v, x, i + 1);
    }
}

proof fn lemma_ramp(b: Seq<u8>, r: nat)
    requires
        r <= b.len(),
        forall|j: int| b.len() - r <= j < b.len() && j > 0 ==> #[trigger] b[j] < b[j - 1],
    ensures
        r <= envelope::ramp(b, r) <= b.len(),
        envelope::ramp(b, r) > r ==> envelope::ramp(b, r) < b.len(),
        forall|j: int|
            b.len() - envelope::ramp(b, r) <= j < b.len() && j > 0 ==> #[trigger] b[j] < b[j - 1],
    decreases b.len() - r,
{
    if r + 1 < b.len() && b[b.len() - 1 - r] < b[b.len() - 2 - r] {
        lemma_ramp(b, r + 1);
    }
}

/// The envelope of a note is read off its levels: the attack lasts until the
/// first frame at the peak, after which nothing is louder, and a release is a
/// steady fall into silence. A note that never falls silent has no release.
pub proof fn law_envelopes_are_read_off_the_levels(levels: Seq<u8>, vol: u8)
    requires
        envelope::adsr_of(levels, vol) is Some,
        levels.len() <= usize::MAX,
    ensures
        ({
            let a = envelope::adsr_of(levels, vol)->0;
            let e = envelope::envelope(levels, vol);
            let n = e.len();
            &&& a.attack < n
            &&& e[a.attack as int] == a.peak
            &&& forall|i: int| 0 <= i < a.attack ==> (#[trigger] e[i]) < a.peak
            &&& forall|i: int| 0 <= i < n ==> (#[trigger] e[i]) <= a.peak
            &&& (forall|i: int| a.attack <= i < n ==> (#[trigger] e[i]) > 0) ==> a.release == 0
            &&& forall|s: int|
                a.attack < s < n && #[trigger] e[s] == 0 && (forall|i: int|
                    a.attack <= i < s ==> (#[trigger] e[i]) > 0) ==> a.release >= 1 && forall|
                    j: int,
                |
                    s - a.release < j <= s && j > a.attack ==> #[trigger] e[j] < e[j - 1]
        }),
{
    let e = envelope::envelope(levels, vol);
    let n = e.len();
    lemma_peak_of(e, n);
    let peak = envelope::peak_of(e, n);
    lemma_first_of(e, peak, 0);
    let at = envelope::first_of(e, peak, 0);
    let w = choose|i: int| 0 <= i < n && #[trigger] e[i] == peak;
    assert(at < n) by {
        assert(e[w] == peak);
    }
    let tail = e.skip(at as int);
    lemma_first_of(tail, 0, 0);
    let end = envelope::first_of(tail, 0, 0);
    let body = tail.take(end as int);
    lemma_ramp(body, 0);
    let a = envelope::adsr_of(levels, vol)->0;
    assert(a.attack == at);
    if forall|i: int| a.attack <= i < n ==> (#[trigger] e[i]) > 0 {
        if end < tail.len() {
            assert(tail[end as int] == e[at as int + end as int]);
            assert(false);
        }
    }
    assert forall|s: int|
        a.attack < s < n && #[trigger] e[s] == 0 && (forall|i: int|
            a.attack <= i < s ==> (#[trigger] e[i]) > 0) implies a.release >= 1 && forall|j: int|
        s - a.release < j <= s && j > a.attack ==> #[trigger] e[j] < e[j - 1] by {
        assert(tail[s - at] == e[s]);
        if end < s - at {
            assert(tail[end as int] == e[at as int + end as int]);
            assert(e[at as int + end as int] > 0);
        }
        assert(end == s - at);
        assert forall|j: int| s - a.release < j <= s && j > a.attack implies #[trigger] e[j] < e[j
            - 1] by {
            if j == s {
                assert(e[s - 1] > 0);
            } else {
                assert(body[j - at] == e[j]);
                assert(body[j - at - 1] == e[j - 1]);
            }
        }
    }
}

/// Times are kept: a number of frames becomes the milliseconds nearest to it,
/// at 60.0988 frames a second, as far as they can be written.
pub proof fn law_frames_become_milliseconds(frames: nat)
    ensures
        envelope::ms_of(frames) < u16::MAX ==> {
            let ms = envelope::ms_of(frames) as int;
            &&& 2 * (600_988 * ms - 10_000_000 * frames) <= 600_988
            &&& 2 * (10_000_000 * frames - 600_988 * ms) <= 600_988
        },
        envelope::ms_of(frames) == u16::MAX ==> 2 * 10_000_000 * frames + 600_988 >= 2 * 600_988
            * u16::MAX,
{
}

/// A duty setting goes out as it came in.
pub proof fn law_duties_go_round(n: EnvView)
    requires
        n.ch <= 1,
        n.duty <= 3,
    ensures
        compile::duty_bits(envelope::duty_of_note(n)) == n.duty,
{
}

// ---------------------------------------------------------------- pitch

/// The effects that a transcription writes are the ones that the driver knows
/// by these names, with the same parameters.
pub proof fn law_motions_reach_the_driver(m: Motion)
    requires
        pitch::in_nibbles(m),
    ensures
        match m {
            Motion::Steady => pitch::effect(m) is None,
            Motion::Vibrato { depth, rate } => pitch::effect(m) is Some && compile::fx_event(
                (pitch::effect(m)->0).0,
                (pitch::effect(m)->0).1,
            ) == Some(Event::Vibrato { depth, rate }),
            Motion::Arpeggio { x, y } => pitch::effect(m) is Some && compile::fx_event(
                (pitch::effect(m)->0).0,
                (pitch::effect(m)->0).1,
            ) == Some(Event::Arp { x, y }),
            Motion::Slide { speed } => pitch::effect(m) is Some && compile::fx_event(
                (pitch::effect(m)->0).0,
                (pitch::effect(m)->0).1,
            ) == Some(Event::Slide(speed)),
        },
{
}

proof fn lemma_extremes(p: Seq<u16>, k: nat)
    requires
        0 < k <= p.len(),
    ensures
        forall|i: int|
            0 <= i < k ==> pitch::least(p, k) <= (#[trigger] p[i]) <= pitch::greatest(p, k),
        exists|i: int| 0 <= i < k && #[trigger] p[i] == pitch::least(p, k),
        exists|i: int| 0 <= i < k && #[trigger] p[i] == pitch::greatest(p, k),
    decreases k,
{
    if k == 1 {
        assert(p[0] == pitch::least(p, 1));
    } else {
        lemma_extremes(p, (k - 1) as nat);
        let i = choose|i: int| 0 <= i < k - 1 && #[trigger] p[i] == pitch::least(p, (k - 1) as nat);
        let j = choose|j: int|
            0 <= j < k - 1 && #[trigger] p[j] == pitch::greatest(p, (k - 1) as nat);
        assert(p[i] == pitch::least(p, k) || p[k - 1] == pitch::least(p, k));
        assert(p[j] == pitch::greatest(p, k) || p[k - 1] == pitch::greatest(p, k));
    }
}

proof fn lemma_visited(v: Seq<u8>, n: nat)
    requires
        n <= 128,
    ensures
        ({
            let d = pitch::visited(v, n);
            &&& forall|i: int| 0 <= i < d.len() ==> (#[trigger] d[i]) < n && is_heard_twice(v, d[i])
            &&& forall|i: int, j: int| 0 <= i < j < d.len() ==> #[trigger] d[i] < #[trigger] d[j]
        }),
    decreases n,
{
    if n > 0 {
        lemma_visited(v, (n - 1) as nat);
        let m = (n - 1) as u8;
        let b = pitch::visited(v, (n - 1) as nat);
        let d = pitch::visited(v, n);
        if pitch::times(v, m, v.len()) >= 2 {
            lemma_times(v, m, v.len());
            assert(is_heard_twice(v, m));
            assert(d == b.push(m));
            assert forall|i: int| 0 <= i < d.len() implies (#[trigger] d[i]) < n && is_heard_twice(
                v,
                d[i],
            ) by {
                if i < b.len() {
                    assert(d[i] == b[i]);
                }
            }
            assert forall|i: int, j: int| 0 <= i < j < d.len() implies #[trigger] d[i]
                < #[trigger] d[j] by {
                assert(d[i] == b[i]);
                if j < b.len() {
                    assert(d[j] == b[j]);
                }
            }
        }
    }
}

/// Whether a note is heard on two frames or more.
pub open spec fn is_heard_twice(v: Seq<u8>, n: u8) -> bool {
    exists|i: int, j: int|
        0 <= i < j < v.len() && #[trigger] v[i] == n && #[trigger] v[j] == n
}

proof fn lemma_times(v: Seq<u8>, n: u8, k: nat)
    requires
        k <= v.len(),
    ensures
        pitch::times(v, n, k) >= 1 ==> exists|i: int| 0 <= i < k && #[trigger] v[i] == n,
        pitch::times(v, n, k) >= 2 ==> exists|i: int, j: int|
            0 <= i < j < k && #[trigger] v[i] == n && #[trigger] v[j] == n,
    decreases k,
{
    if k > 0 {
        lemma_times(v, n, (k - 1) as nat);
        if v[k - 1] == n {
            assert(v[k - 1] == n);
            if pitch::times(v, n, (k - 1) as nat) >= 1 {
                let i = choose|i: int| 0 <= i < k - 1 && #[trigger] v[i] == n;
                assert(v[i] == n && v[k - 1] == n);
            }
        }
    }
}

/// What a note's periods show is what they do. An arpeggio names notes above
/// the lowest by their distance from it, each heard more than once. A slide
/// goes one way, away from the first pitch, and is as fast as its first step.
/// A vibrato is as deep as its periods are apart. Periods that do not change
/// show nothing.
pub proof fn law_motions_are_what_periods_do(p: Seq<u16>, c: usize)
    requires
        p.len() > 0,
    ensures
        ({
            let v = pitch::pitches(p, c, p.len());
            &&& (forall|i: int, j: int|
                0 <= i < p.len() && 0 <= j < p.len() ==> #[trigger] p[i] == #[trigger] p[j])
                ==> pitch::motion(p, c) is Steady
            &&& pitch::motion(p, c) matches Motion::Arpeggio { x, y } ==> exists|n: u8|
                #![trigger is_heard_twice(v, n)]
                is_heard_twice(v, n) && (0 < x < 15 ==> is_heard_twice(v, (n + x) as u8)) && (0 < y
                    < 15 ==> x < y && is_heard_twice(v, (n + y) as u8))
            &&& pitch::motion(p, c) matches Motion::Slide { speed } ==> pitch::pitch_of(c, p[0])
                != pitch::pitch_of(c, p.last()) && speed > 0 && (speed < 255 ==> p[1] == p[0]
                + speed || p[1] == p[0] - speed) && (p.len() > 2 ==> (p[0] <= p[1] <= p[2]
                || p[0] >= p[1] >= p[2]))
            &&& pitch::motion(p, c) matches Motion::Vibrato { depth, rate } ==> exists|
                i: int,
                j: int,
            |
                0 <= i < p.len() && 0 <= j < p.len() && #[trigger] p[i] < #[trigger] p[j] && (depth
                    < 15 ==> depth == p[j] - p[i] + 1) && (forall|k: int|
                    0 <= k < p.len() ==> p[i] <= (#[trigger] p[k]) <= p[j])
        }),
{
    lemma_extremes(p, p.len());
    let lo = pitch::least(p, p.len());
    let hi = pitch::greatest(p, p.len());
    let i = choose|i: int| 0 <= i < p.len() && #[trigger] p[i] == lo;
    let j = choose|j: int| 0 <= j < p.len() && #[trigger] p[j] == hi;
    assert(p[i] == lo && p[j] == hi);
    let v = pitch::pitches(p, c, p.len());
    lemma_visited(v, 128);
    let d = pitch::visited(v, 128);
    if let Motion::Arpeggio { x, y } = pitch::motion(p, c) {
        assert(d.len() >= 2);
        let n = d[0];
        assert(is_heard_twice(v, d[0]));
        assert(is_heard_twice(v, d[1]));
        assert(d[0] < d[1]);
        if 0 < x < 15 {
            assert(d[1] == n + x);
        }
        if d.len() == 3 {
            assert(is_heard_twice(v, d[2]));
            assert(d[1] < d[2]);
            if 0 < y < 15 {
                assert(d[2] == n + y);
            }
        }
    }
    if let Motion::Slide { speed } = pitch::motion(p, c) {
        if p.len() > 2 {
            if pitch::falls(p) {
                assert(p[0] >= p[0int + 1]);
                assert(p[1] >= p[1int + 1]);
            } else {
                assert(p[0] <= p[0int + 1]);
                assert(p[1] <= p[1int + 1]);
            }
        }
    }
}

// ---------------------------------------------------------------- effects that end

proof fn lemma_ends_shape(rows: Seq<Seq<Cell>>, c: int, k: nat)
    requires
        k <= rows.len(),
        0 <= c < CHANNELS,
        forall|i: int| 0 <= i < rows.len() ==> (#[trigger] rows[i]).len() == CHANNELS,
    ensures
        ({
            let s = transcribe::ends_on(rows, c, k);
            &&& s.rows.len() == rows.len()
            &&& forall|i: int| 0 <= i < rows.len() ==> (#[trigger] s.rows[i]).len() == CHANNELS
            &&& forall|i: int| k <= i < rows.len() ==> (#[trigger] s.rows[i]) == rows[i]
        }),
    decreases k,
{
    if k > 0 {
        lemma_ends_shape(rows, c, (k - 1) as nat);
    }
}

proof fn lemma_ends_kept(rows: Seq<Seq<Cell>>, c: int, j: nat, k: nat, i: int)
    requires
        j <= k <= rows.len(),
        0 <= i < j,
        0 <= c < CHANNELS,
        forall|q: int| 0 <= q < rows.len() ==> (#[trigger] rows[q]).len() == CHANNELS,
    ensures
        transcribe::ends_on(rows, c, k).rows[i] == transcribe::ends_on(rows, c, j).rows[i],
    decreases k - j,
{
    if j < k {
        lemma_ends_kept(rows, c, j, (k - 1) as nat, i);
        lemma_ends_shape(rows, c, (k - 1) as nat);
    }
}

proof fn lemma_ends_active(rows: Seq<Seq<Cell>>, c: int, q: int, k: nat)
    requires
        0 <= q < k <= rows.len(),
        0 <= c < CHANNELS,
        forall|i: int| 0 <= i < rows.len() ==> (#[trigger] rows[i]).len() == CHANNELS,
        rows[q][c].note is Some,
        rows[q][c].fx is Some,
        forall|i: int| q < i < k ==> (#[trigger] rows[i])[c].note is None,
    ensures
        transcribe::ends_on(rows, c, k).active == (if (rows[q][c].fx->0).1 == 0 {
            None
        } else {
            rows[q][c].fx
        }),
    decreases k,
{
    lemma_ends_shape(rows, c, (k - 1) as nat);
    if q < k - 1 {
        lemma_ends_active(rows, c, q, (k - 1) as nat);
        assert(rows[k - 1][c].note is None);
    }
}

/// An effect ends with its note: where a plain note follows one with an
/// effect, the same effect is written with nothing behind it, which switches
/// it off. Notes with effects of their own keep them.
pub proof fn law_effects_end_with_their_notes(rows: Seq<Seq<Cell>>, c: int, q: int, r: int)
    requires
        0 <= q < r < rows.len(),
        0 <= c < CHANNELS,
        forall|i: int| 0 <= i < rows.len() ==> (#[trigger] rows[i]).len() == CHANNELS,
        rows[q][c].note is Some,
        rows[q][c].fx is Some,
        rows[r][c].note is Some,
        forall|i: int| q < i < r ==> (#[trigger] rows[i])[c].note is None,
    ensures
        ({
            let x = transcribe::ends_on(rows, c, rows.len()).rows[r][c];
            let f = rows[q][c].fx->0;
            &&& rows[r][c].fx is None && f.1 != 0 ==> x.fx == Some((f.0, 0u8))
            &&& rows[r][c].fx is None && f.1 == 0 ==> x.fx is None
            &&& rows[r][c].fx is Some ==> x.fx == rows[r][c].fx
            &&& x.note == rows[r][c].note && x.vol == rows[r][c].vol
        }),
{
    lemma_ends_active(rows, c, q, r as nat);
    lemma_ends_shape(rows, c, r as nat);
    lemma_ends_kept(rows, c, (r + 1) as nat, rows.len(), r);
    assert(transcribe::ends_on(rows, c, r as nat).rows[r] == rows[r]);
}

// ---------------------------------------------------------------- held notes

proof fn lemma_holds_shape(
    rows: Seq<Seq<Cell>>,
    t: Seq<FrameTrace>,
    c: int,
    starts: Seq<u32>,
    k: nat,
)
    requires
        k <= rows.len(),
        0 <= c < CHANNELS,
        forall|i: int| 0 <= i < rows.len() ==> (#[trigger] rows[i]).len() == CHANNELS,
    ensures
        ({
            let s = transcribe::holds_on(rows, t, c, starts, k);
            &&& s.rows.len() == rows.len()
            &&& forall|i: int| 0 <= i < rows.len() ==> (#[trigger] s.rows[i]).len() == CHANNELS
            &&& forall|i: int| k <= i < rows.len() ==> (#[trigger] s.rows[i]) == rows[i]
        }),
    decreases k,
{
    if k > 0 {
        lemma_holds_shape(rows, t, c, starts, (k - 1) as nat);
    }
}

proof fn lemma_holds_kept(
    rows: Seq<Seq<Cell>>,
    t: Seq<FrameTrace>,
    c: int,
    starts: Seq<u32>,
    j: nat,
    k: nat,
    i: int,
)
    requires
        j <= k <= rows.len(),
        0 <= i < j,
        0 <= c < CHANNELS,
        forall|q: int| 0 <= q < rows.len() ==> (#[trigger] rows[q]).len() == CHANNELS,
    ensures
        transcribe::holds_on(rows, t, c, starts, k).rows[i] == transcribe::holds_on(
            rows,
            t,
            c,
            starts,
            j,
        ).rows[i],
    decreases k - j,
{
    if j < k {
        lemma_holds_kept(rows, t, c, starts, j, (k - 1) as nat, i);
        lemma_holds_shape(rows, t, c, starts, (k - 1) as nat);
    }
}

proof fn lemma_sounding(
    rows: Seq<Seq<Cell>>,
    t: Seq<FrameTrace>,
    c: int,
    starts: Seq<u32>,
    k: nat,
)
    requires
        0 < k <= rows.len(),
        0 <= c < CHANNELS,
        forall|i: int| 0 <= i < rows.len() ==> (#[trigger] rows[i]).len() == CHANNELS,
        forall|i: int| 0 <= i < rows.len() ==> !(#[trigger] rows[i])[c].hold,
    ensures
        ({
            let s = transcribe::holds_on(rows, t, c, starts, k);
            s.sounding == (s.rows[k - 1][c].note is Some || s.rows[k - 1][c].hold)
        }),
{
    lemma_holds_shape(rows, t, c, starts, (k - 1) as nat);
    assert(transcribe::holds_on(rows, t, c, starts, (k - 1) as nat).rows[k - 1] == rows[k - 1]);
    assert(!rows[k - 1][c].hold);
}

/// A note is held as long as it sounds: a row without a note is a hold just
/// where the row before it strikes or holds a note and the channel is heard
/// both in this row and in the next.
pub proof fn law_notes_are_held_while_they_sound(
    rows: Seq<Seq<Cell>>,
    t: Seq<FrameTrace>,
    c: int,
    starts: Seq<u32>,
    r: int,
)
    requires
        0 < r < rows.len(),
        rows.len() == starts.len(),
        0 <= c < CHANNELS,
        forall|i: int| 0 <= i < rows.len() ==> (#[trigger] rows[i]).len() == CHANNELS,
        forall|i: int| 0 <= i < rows.len() ==> !(#[trigger] rows[i])[c].hold,
    ensures
        ({
            let g = transcribe::holds_on(rows, t, c, starts, starts.len()).rows;
            let x = g[r][c];
            let before = g[r - 1][c];
            &&& rows[r][c].note is Some ==> x == rows[r][c]
            &&& rows[r][c].note is None ==> x.note is None && (x.hold <==> (before.note is Some
                || before.hold) && r + 1 < starts.len() && transcribe::audible(
                t,
                c,
                starts[r] as int,
                starts[r + 1] as int,
            ) && transcribe::audible(
                t,
                c,
                starts[r + 1] as int,
                if r + 2 < starts.len() {
                    starts[r + 2] as int
                } else {
                    starts[r + 1] + 1
                },
            ))
        }),
{
    lemma_holds_shape(rows, t, c, starts, r as nat);
    lemma_sounding(rows, t, c, starts, r as nat);
    lemma_holds_kept(rows, t, c, starts, r as nat, starts.len(), r - 1);
    lemma_holds_kept(rows, t, c, starts, (r + 1) as nat, starts.len(), r);
    assert(transcribe::holds_on(rows, t, c, starts, r as nat).rows[r] == rows[r]);
    assert(!rows[r][c].hold);
}

// ---------------------------------------------------------------- instruments

/// Whether a voice is all of the first `k` notes of its shape.
pub open spec fn is_voice(v: Voice, ns: Seq<EnvView>, k: nat) -> bool {
    &&& forall|j: int|
        0 <= j < v.members.len() ==> (#[trigger] v.members[j]) < k && envelope::shape_of(
            ns[v.members[j] as int],
        ) == v.shape
    &&& forall|i: int|
        0 <= i < k && envelope::shape_of(#[trigger] ns[i]) == v.shape ==> v.members.contains(
            i as usize,
        )
}

proof fn lemma_shape_found(vs: Seq<Voice>, s: envelope::Shape, i: nat)
    requires
        i <= vs.len(),
    ensures
        ({
            let k = envelope::shape_index(vs, s, i);
            &&& i <= k <= vs.len()
            &&& k < vs.len() ==> vs[k as int].shape == s
            &&& forall|j: int| i <= j < k ==> (#[trigger] vs[j]).shape != s
        }),
    decreases vs.len() - i,
{
    if i < vs.len() && vs[i as int].shape != s {
        lemma_shape_found(vs, s, i + 1);
    }
}

proof fn lemma_voices(ns: Seq<EnvView>, k: nat)
    requires
        k <= ns.len() <= usize::MAX,
    ensures
        ({
            let vs = envelope::voices(ns, k);
            &&& forall|i: int| 0 <= i < vs.len() ==> is_voice(#[trigger] vs[i], ns, k)
            &&& forall|i: int, j: int|
                0 <= i < j < vs.len() ==> (#[trigger] vs[i]).shape != (#[trigger] vs[j]).shape
            &&& forall|i: int|
                0 <= i < k ==> exists|j: int|
                    0 <= j < vs.len() && (#[trigger] vs[j]).shape == envelope::shape_of(
                        #[trigger] ns[i],
                    )
        }),
    decreases k,
{
    if k > 0 {
        lemma_voices(ns, (k - 1) as nat);
        let b = envelope::voices(ns, (k - 1) as nat);
        let vs = envelope::voices(ns, k);
        let s = envelope::shape_of(ns[k - 1]);
        lemma_shape_found(b, s, 0);
        let at = envelope::shape_index(b, s, 0) as int;
        assert forall|i: int| 0 <= i < vs.len() implies is_voice(#[trigger] vs[i], ns, k) by {
            if i < b.len() {
                assert(is_voice(b[i], ns, (k - 1) as nat));
            }
            if i == at {
                let m = vs[at].members;
                assert(m[m.len() - 1] == k - 1);
                assert forall|q: int|
                    0 <= q < k && envelope::shape_of(#[trigger] ns[q]) == s implies m.contains(
                    q as usize,
                ) by {
                    if q < k - 1 {
                        if at < b.len() {
                            assert(b[at].members.contains(q as usize));
                            let w = choose|w: int|
                                0 <= w < b[at].members.len() && b[at].members[w] == q as usize;
                            assert(m[w] == q as usize);
                        } else {
                            let w = choose|w: int|
                                0 <= w < b.len() && (#[trigger] b[w]).shape == envelope::shape_of(
                                    ns[q],
                                );
                            assert(b[w].shape == s);
                        }
                    } else {
                        assert(m[m.len() - 1] == q as usize);
                    }
                }
            } else {
                assert(vs[i] == b[i]);
                assert(b[i].shape != s) by {
                    if at < b.len() {
                        assert(b[at].shape == s);
                        if i < at {
                            assert(b[i].shape != b[at].shape);
                        } else {
                            assert(b[at].shape != b[i].shape);
                        }
                    }
                }
            }
        }
        assert forall|i: int| 0 <= i < k implies exists|j: int|
            0 <= j < vs.len() && (#[trigger] vs[j]).shape == envelope::shape_of(
                #[trigger] ns[i],
            ) by {
            if i < k - 1 {
                let j = choose|j: int|
                    0 <= j < b.len() && (#[trigger] b[j]).shape == envelope::shape_of(ns[i]);
                assert(vs[j].shape == b[j].shape);
            } else {
                assert(vs[at].shape == s);
            }
        }
    }
}

proof fn lemma_voice_of(vs: Seq<Voice>, k: usize, i: nat, j: int)
    requires
        0 <= j < i <= vs.len(),
        vs[j].members.contains(k),
    ensures
        envelope::voice_of(vs, k, i) < i,
        vs[envelope::voice_of(vs, k, i) as int].members.contains(k),
    decreases i,
{
    if !vs[i - 1].members.contains(k) {
        lemma_voice_of(vs, k, (i - 1) as nat, j);
    }
}

proof fn lemma_instrument_found(v: Seq<Instrument>, x: Instrument, i: nat)
    requires
        i <= v.len(),
    ensures
        ({
            let k = envelope::instrument_index(v, x, i);
            i <= k <= v.len() && (k < v.len() ==> v[k as int] == x)
        }),
        v.skip(i as int).contains(x) ==> envelope::instrument_index(v, x, i) < v.len(),
    decreases v.len() - i,
{
    if i < v.len() && v[i as int] != x {
        if v.skip(i as int).contains(x) {
            let w = choose|w: int| 0 <= w < v.len() - i && v.skip(i as int)[w] == x;
            assert(v.skip(i as int + 1)[w - 1] == x);
        }
        lemma_instrument_found(v, x, i + 1);
    } else if i >= v.len() {
        assert(v.skip(i as int).len() == 0);
    }
}

proof fn lemma_instruments(ns: Seq<EnvView>, vs: Seq<Voice>, k: nat, j: int)
    requires
        0 <= j < k <= vs.len(),
    ensures
        envelope::instruments(ns, vs, k).contains(envelope::voice_instrument(ns, vs[j])),
    decreases k,
{
    let b = envelope::instruments(ns, vs, (k - 1) as nat);
    let v = envelope::instruments(ns, vs, k);
    let x = envelope::voice_instrument(ns, vs[k - 1]);
    lemma_instrument_found(b, x, 0);
    if j < k - 1 {
        lemma_instruments(ns, vs, (k - 1) as nat, j);
        let y = envelope::voice_instrument(ns, vs[j]);
        let w = choose|w: int| 0 <= w < b.len() && b[w] == y;
        assert(v[w] == y);
    } else if envelope::instrument_index(b, x, 0) < b.len() {
        assert(v[envelope::instrument_index(b, x, 0) as int] == x);
    } else {
        assert(v[b.len() as int] == x);
    }
}

proof fn lemma_table(ns: Seq<EnvView>, vs: Seq<Voice>, k: nat)
    ensures
        envelope::instruments(ns, vs, k).len() <= k,
    decreases k,
{
    if k > 0 {
        lemma_table(ns, vs, (k - 1) as nat);
    }
}

/// Where there are no more shapes than instruments every note gets the
/// instrument made for its shape, and notes of one shape get the same.
pub proof fn law_shapes_have_their_instruments(ns: Seq<EnvView>, k: int)
    requires
        0 <= k < ns.len() <= usize::MAX,
        envelope::voices(ns, ns.len()).len() <= INSTRUMENTS,
    ensures
        ({
            let (table, at) = envelope::synthesised(ns);
            &&& at.len() == ns.len()
            &&& at[k] < table.len()
            &&& exists|v: Voice| #[trigger]
                is_voice(v, ns, ns.len()) && v.shape == envelope::shape_of(ns[k])
                    && v.members.contains(k as usize) && table[at[k] as int]
                    == envelope::voice_instrument(ns, v)
        }),
{
    let n = ns.len();
    let vs = envelope::voices(ns, n);
    lemma_voices(ns, n);
    let j = choose|j: int|
        0 <= j < vs.len() && (#[trigger] vs[j]).shape == envelope::shape_of(ns[k]);
    assert(is_voice(vs[j], ns, n));
    assert(vs[j].members.contains(k as usize));
    lemma_voice_of(vs, k as usize, vs.len(), j);
    let w = envelope::voice_of(vs, k as usize, vs.len()) as int;
    assert(is_voice(vs[w], ns, n));
    let q = choose|q: int| 0 <= q < vs[w].members.len() && vs[w].members[q] == k as usize;
    assert(vs[w].members[q] == k);
    lemma_instruments(ns, vs, vs.len(), w);
    let all = envelope::instruments(ns, vs, vs.len());
    let x = envelope::voice_instrument(ns, vs[w]);
    assert(all.skip(0) =~= all);
    lemma_instrument_found(all, x, 0);
    lemma_table(ns, vs, vs.len());
    assert(envelope::synthesised(ns).1[k] == envelope::instrument_index(all, x, 0));
    assert(is_voice(vs[w], ns, n));
}

proof fn lemma_longest(ns: Seq<EnvView>, m: Seq<usize>, k: nat)
    requires
        0 < k <= m.len(),
    ensures
        exists|j: int| 0 <= j < k && #[trigger] m[j] == envelope::longest(ns, m, k),
        forall|j: int|
            0 <= j < k ==> ns[#[trigger] m[j] as int].levels.len() <= ns[envelope::longest(
                ns,
                m,
                k,
            ) as int].levels.len(),
    decreases k,
{
    if k == 1 {
        assert(m[0] == envelope::longest(ns, m, 1));
    } else {
        lemma_longest(ns, m, (k - 1) as nat);
        let b = envelope::longest(ns, m, (k - 1) as nat);
        if ns[m[k - 1] as int].levels.len() >= ns[b as int].levels.len() {
            assert(m[k - 1] == envelope::longest(ns, m, k));
        } else {
            let j = choose|j: int| 0 <= j < k - 1 && #[trigger] m[j] == b;
            assert(m[j] == envelope::longest(ns, m, k));
        }
    }
}

proof fn lemma_loudest(ns: Seq<EnvView>, m: Seq<usize>, k: nat, j: int)
    requires
        0 <= j < k <= m.len(),
    ensures
        ({
            let l = ns[m[j] as int].levels;
            envelope::peak_of(l, l.len()) <= envelope::loudest(ns, m, k)
        }),
    decreases k,
{
    if j < k - 1 {
        lemma_loudest(ns, m, (k - 1) as nat, j);
    }
}

/// A voice is played as its longest note was, at the volume of its loudest:
/// the note whose envelope it has is one of its own and none of them lasts
/// longer, and none is louder than it is scaled to be.
pub proof fn law_voices_play_their_longest_note(ns: Seq<EnvView>, v: Voice, j: int, i: int)
    requires
        0 <= j < v.members.len(),
        0 <= i < ns[v.members[j] as int].levels.len(),
    ensures
        ({
            let m = v.members;
            let n = envelope::longest(ns, m, m.len());
            let top = envelope::loudest(ns, m, m.len());
            &&& m.contains(n)
            &&& ns[m[j] as int].levels.len() <= ns[n as int].levels.len()
            &&& ns[m[j] as int].levels[i] <= top
            &&& envelope::voice_instrument(ns, v).duty == envelope::duty_of_note(ns[n as int])
        }),
{
    let m = v.members;
    lemma_longest(ns, m, m.len());
    lemma_loudest(ns, m, m.len(), j);
    let l = ns[m[j] as int].levels;
    lemma_peak_of(l, l.len());
    assert(l[i] <= envelope::peak_of(l, l.len()));
    let w = choose|w: int|
        0 <= w < m.len() && #[trigger] m[w] == envelope::longest(ns, m, m.len());
    assert(m[w] == envelope::longest(ns, m, m.len()));
    assert(ns[m[j] as int].levels.len() <= ns[envelope::longest(ns, m, m.len()) as int].levels.len());
}

// ---------------------------------------------------------------- the end

/// Only what is still is cut off at the end, and never into the first phrase.
pub proof fn law_only_silence_is_cut_off(rows: Seq<Seq<Cell>>, n: nat, i: int, c: int)
    requires
        n <= rows.len(),
        transcribe::music_len(rows, n) <= i < n,
        0 <= c < CHANNELS,
    ensures
        rows[i][c].note is None && !rows[i][c].hold,
        transcribe::music_len(rows, n) >= 16,
    decreases n,
{
    lemma_music_len(rows, n);
    if n > 16 && transcribe::is_still(rows[n - 1]) {
        if i < n - 1 {
            law_only_silence_is_cut_off(rows, (n - 1) as nat, i, c);
        } else {
            assert(rows[i][c].note is None && !rows[i][c].hold);
        }
    }
}

proof fn lemma_music_len(rows: Seq<Seq<Cell>>, n: nat)
    ensures
        transcribe::music_len(rows, n) <= n,
        n >= 16 ==> transcribe::music_len(rows, n) >= 16,
        n < 16 ==> transcribe::music_len(rows, n) == n,
    decreases n,
{
    if n > 16 && transcribe::is_still(rows[n - 1]) {
        lemma_music_len(rows, (n - 1) as nat);
    }
}

} // verus!
