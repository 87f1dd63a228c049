//! What a transcription is true to: each note of a ripped song is one that the
//! chip sounded, on its channel and at its time, and each note that the chip
//! struck is there.

use vstd::prelude::*;

use crate::rip::clock;
use crate::rip::pitch;
use crate::rip::pitch::Motion;
use crate::rip::ripper;
use crate::rip::trace;
use crate::rip::trace::{FrameTrace, DMC, NOI, TRI};
use crate::rip::transcribe;
use crate::rip::transcribe::{DraftView, PlacedView};
use crate::rip::tuning;
use crate::song;
use crate::song::{Cell, Instrument, SongView, CHANNELS, STEPS_PER_PHRASE};

verus! {

/// By what a channel divides the clock, besides its period.
pub open spec fn divider(c: int) -> nat {
    if c == TRI {
        32
    } else {
        16
    }
}

/// Whether a note is what a channel sounds on a frame. A pulse and the
/// triangle sound the nearest note to their frequency, noise one of the four
/// notes of its period, and a sample stands as many notes above middle C as
/// its address stands in the list of samples.
pub open spec fn plays(f: FrameTrace, c: int, n: u8, samples: Seq<u8>) -> bool {
    let p = f.ch@[c].period;
    if c == DMC {
        60 <= n < 60 + samples.len() && (n == 127 || Some(samples[n - 60]) == (match f.dpcm {
            Some(s) => Some(s),
            None => Some(0u8),
        }))
    } else if c == NOI {
        (n - 36) / 4 == 15 - (if p > 15 {
            15
        } else {
            p as int
        })
    } else {
        n < 128 && tuning::is_nearest(n as nat, divider(c) * (p as nat + 1))
    }
}

/// Whether a frame is of a row: no row starts nearer to it, or the row has
/// begun and the next has not.
pub open spec fn is_of_row(frame: u32, starts: Seq<u32>, r: int) -> bool {
    ||| forall|j: int|
        0 <= j < starts.len() ==> clock::gap(starts[r], frame) <= clock::gap(
            #[trigger] starts[j],
            frame,
        )
    ||| starts[r] <= frame && (r + 1 < starts.len() ==> frame < starts[r + 1])
}

/// Whether the chip sounds a note on a channel within a row.
pub open spec fn is_sounded(
    t: Seq<FrameTrace>,
    starts: Seq<u32>,
    samples: Seq<u8>,
    c: int,
    r: int,
    n: u8,
) -> bool {
    exists|i: int|
        0 <= i < t.len() && (#[trigger] t[i]).ch@[c].level > 0 && plays(t[i], c, n, samples)
            && is_of_row(t[i].frame, starts, r)
}

/// The cell of a song on a row of its order.
pub open spec fn song_cell(s: SongView, r: int, c: int) -> Cell {
    s.phrases[s.order[r / 16] as int][r % 16][c]
}

// ---------------------------------------------------------------- pitches

proof fn lemma_pitch(c: usize, p: u16)
    requires
        c < NOI,
    ensures
        pitch::pitch_of(c, p) matches Some(n) ==> n < 128 && tuning::is_nearest(
            n as nat,
            divider(c as int) * (p as nat + 1),
        ),
{
    tuning::law_pulse_note_is_nearest(p);
    tuning::law_triangle_note_is_nearest(p);
}

proof fn lemma_slot(slots: Seq<u8>, x: u8, i: nat)
    requires
        i <= slots.len(),
    ensures
        i <= transcribe::slot_at(slots, x, i) <= slots.len(),
        transcribe::slot_at(slots, x, i) < slots.len() ==> slots[transcribe::slot_at(
            slots,
            x,
            i,
        ) as int] == x,
    decreases slots.len() - i,
{
    if i < slots.len() && slots[i as int] != x {
        lemma_slot(slots, x, i + 1);
    }
}

/// A struck note is one that its frame plays.
proof fn lemma_struck_note(f: FrameTrace, c: int, slots: Seq<u8>)
    requires
        0 <= c < CHANNELS,
    ensures
        transcribe::struck_note(f, c, slots) matches Some(n) ==> plays(
            f,
            c,
            n,
            transcribe::slots_after(f, c, slots),
        ),
{
    if c == DMC {
        lemma_slot(slots, transcribe::sample_of(f), 0);
    } else if c < NOI {
        lemma_pitch(c as usize, f.ch@[c].period);
    }
}

/// Samples that are known stay known.
proof fn lemma_plays_on(f: FrameTrace, c: int, n: u8, a: Seq<u8>, b: Seq<u8>)
    requires
        plays(f, c, n, a),
        a.len() <= b.len(),
        b.take(a.len() as int) == a,
    ensures
        plays(f, c, n, b),
{
    if c == DMC {
        assert(a[n - 60] == b.take(a.len() as int)[n - 60]);
    }
}

// ---------------------------------------------------------------- struck notes

/// Whether every note of the rows is sounded.
spec fn all_sounded(
    rows: Seq<Seq<Cell>>,
    t: Seq<FrameTrace>,
    starts: Seq<u32>,
    samples: Seq<u8>,
) -> bool {
    &&& rows.len() == starts.len()
    &&& forall|r: int| 0 <= r < rows.len() ==> (#[trigger] rows[r]).len() == CHANNELS
    &&& forall|r: int, c: int|
        0 <= r < rows.len() && 0 <= c < CHANNELS && (#[trigger] rows[r][c]).note is Some
            ==> is_sounded(t, starts, samples, c, r, rows[r][c].note->0)
}

proof fn lemma_sounded_on(
    t: Seq<FrameTrace>,
    starts: Seq<u32>,
    a: Seq<u8>,
    b: Seq<u8>,
    c: int,
    r: int,
    n: u8,
)
    requires
        is_sounded(t, starts, a, c, r, n),
        a.len() <= b.len(),
        b.take(a.len() as int) == a,
    ensures
        is_sounded(t, starts, b, c, r, n),
{
    let i = choose|i: int|
        0 <= i < t.len() && (#[trigger] t[i]).ch@[c].level > 0 && plays(t[i], c, n, a)
            && is_of_row(t[i].frame, starts, r);
    lemma_plays_on(t[i], c, n, a, b);
}

proof fn lemma_nearest(starts: Seq<u32>, frame: u32)
    requires
        clock::climbing(starts),
        starts.len() > 0,
    ensures
        clock::nearest_index(starts, frame) < starts.len(),
        is_of_row(frame, starts, clock::nearest_index(starts, frame) as int),
{
    clock::lemma_row_at_bounds(starts, frame, 0);
    let r = clock::nearest_index(starts, frame) as int;
    assert forall|j: int| 0 <= j < starts.len() implies clock::gap(starts[r], frame) <= clock::gap(
        #[trigger] starts[j],
        frame,
    ) by {
        clock::law_nearest_row_is_nearest(starts, frame, j);
    }
}

proof fn lemma_strike(d: DraftView, t: Seq<FrameTrace>, starts: Seq<u32>, i: int, c: int)
    requires
        clock::climbing(starts),
        starts.len() > 0,
        0 <= i < t.len(),
        0 <= c < CHANNELS,
        all_sounded(d.rows, t, starts, d.slots),
    ensures
        all_sounded(
            transcribe::strike(d, t, starts, i, c).rows,
            t,
            starts,
            transcribe::strike(d, t, starts, i, c).slots,
        ),
{
    let f = t[i];
    let e = transcribe::strike(d, t, starts, i, c);
    lemma_nearest(starts, f.frame);
    lemma_struck_note(f, c, d.slots);
    lemma_slot(d.slots, transcribe::sample_of(f), 0);
    assert(e.slots.take(d.slots.len() as int) =~= d.slots);
    let r0 = clock::nearest_index(starts, f.frame) as int;
    assert forall|r: int, k: int|
        0 <= r < e.rows.len() && 0 <= k < CHANNELS && (#[trigger] e.rows[r][k]).note
            is Some implies is_sounded(t, starts, e.slots, k, r, e.rows[r][k].note->0) by {
        if trace::strikes(f, c) && transcribe::struck_note(f, c, d.slots) is Some
            && d.rows[r0][c].note is None && r == r0 && k == c {
            assert(plays(t[i], c, e.rows[r][k].note->0, e.slots));
        } else {
            assert(e.rows[r][k] == d.rows[r][k]);
            lemma_sounded_on(t, starts, d.slots, e.slots, k, r, d.rows[r][k].note->0);
        }
    }
}

proof fn lemma_frame(
    d: DraftView,
    t: Seq<FrameTrace>,
    starts: Seq<u32>,
    i: int,
    c: nat,
)
    requires
        clock::climbing(starts),
        starts.len() > 0,
        0 <= i < t.len(),
        c <= CHANNELS,
        all_sounded(d.rows, t, starts, d.slots),
    ensures
        ({
            let e = transcribe::frame_strikes(d, t, starts, i, c);
            all_sounded(e.rows, t, starts, e.slots)
        }),
    decreases c,
{
    if c > 0 {
        lemma_frame(d, t, starts, i, (c - 1) as nat);
        lemma_strike(
            transcribe::frame_strikes(d, t, starts, i, (c - 1) as nat),
            t,
            starts,
            i,
            c - 1,
        );
    }
}

proof fn lemma_struck(t: Seq<FrameTrace>, starts: Seq<u32>, k: nat)
    requires
        clock::climbing(starts),
        starts.len() > 0,
        k <= t.len(),
    ensures
        ({
            let d = transcribe::struck(t, starts, k);
            all_sounded(d.rows, t, starts, d.slots)
        }),
    decreases k,
{
    if k > 0 {
        lemma_struck(t, starts, (k - 1) as nat);
        lemma_frame(
            transcribe::struck(t, starts, (k - 1) as nat),
            t,
            starts,
            k - 1,
            CHANNELS as nat,
        );
    }
}

// ---------------------------------------------------------------- slide targets

/// Whether each period is one that a channel sounds between two frames.
spec fn all_from(t: Seq<FrameTrace>, c: int, from: u32, to: u32, ps: Seq<u16>) -> bool {
    forall|k: int|
        0 <= k < ps.len() ==> exists|i: int|
            0 <= i < t.len() && (#[trigger] t[i]).ch@[c].level > 0 && t[i].ch@[c].period
                == #[trigger] ps[k] && from <= t[i].frame < to
}

proof fn lemma_periods(t: Seq<FrameTrace>, c: int, from: u32, to: u32, k: nat)
    requires
        k <= t.len(),
    ensures
        all_from(t, c, from, to, transcribe::periods_between(t, c, from, to, k)),
    decreases k,
{
    if k > 0 {
        lemma_periods(t, c, from, to, (k - 1) as nat);
        let before = transcribe::periods_between(t, c, from, to, (k - 1) as nat);
        let now = transcribe::periods_between(t, c, from, to, k);
        assert forall|j: int| 0 <= j < now.len() implies exists|i: int|
            0 <= i < t.len() && (#[trigger] t[i]).ch@[c].level > 0 && t[i].ch@[c].period
                == #[trigger] now[j] && from <= t[i].frame < to by {
            if j < before.len() {
                assert(now[j] == before[j]);
            } else {
                assert(t[k - 1].ch@[c].period == now[j]);
            }
        }
    }
}

/// Each of the pitches of periods is that of one of them.
proof fn lemma_pitches(p: Seq<u16>, c: usize, k: nat, n: u8)
    requires
        k <= p.len(),
        pitch::pitches(p, c, k).contains(n),
    ensures
        exists|j: int| 0 <= j < k && pitch::pitch_of(c, #[trigger] p[j]) == Some(n),
    decreases k,
{
    if k > 0 {
        let before = pitch::pitches(p, c, (k - 1) as nat);
        if pitch::pitch_of(c, p[k - 1]) != Some(n) {
            let i = choose|i: int| 0 <= i < pitch::pitches(p, c, k).len() && pitch::pitches(
                p,
                c,
                k,
            )[i] == n;
            assert(before[i] == n);
            lemma_pitches(p, c, (k - 1) as nat, n);
        }
    }
}

proof fn lemma_lowest(v: Seq<u8>, k: nat)
    requires
        k <= v.len(),
    ensures
        transcribe::lowest(v, k) matches Some(n) ==> v.contains(n),
    decreases k,
{
    if k > 0 {
        lemma_lowest(v, (k - 1) as nat);
        assert(v.contains(v[k - 1]));
    }
}

/// What a row moves to is sounded in it.
proof fn lemma_moved(
    t: Seq<FrameTrace>,
    c: int,
    starts: Seq<u32>,
    samples: Seq<u8>,
    r: int,
    sounding: Option<u8>,
)
    requires
        0 <= c < NOI,
        0 <= r < starts.len(),
        trace::in_order(t),
    ensures
        transcribe::moved_to(t, c, starts, r, sounding) matches Some((n, _)) ==> is_sounded(
            t,
            starts,
            samples,
            c,
            r,
            n,
        ),
{
    let ps = transcribe::periods_in(t, c, starts, r);
    let to = if r + 1 < starts.len() {
        starts[r + 1]
    } else {
        u32::MAX
    };
    lemma_periods(t, c, starts[r], to, t.len());
    if let Some((n, _)) = transcribe::moved_to(t, c, starts, r, sounding) {
        let v = pitch::pitches(ps, c as usize, ps.len());
        match pitch::motion(ps + transcribe::periods_in(t, c, starts, r + 1), c as usize) {
            Motion::Arpeggio { x, y } => {
                lemma_lowest(v, v.len());
                lemma_pitches(ps, c as usize, ps.len(), n);
            },
            _ => {
                assert(pitch::pitch_of(c as usize, ps[ps.len() - 1]) == Some(n));
            },
        }
        let j = choose|j: int|
            0 <= j < ps.len() && pitch::pitch_of(c as usize, #[trigger] ps[j]) == Some(n);
        let i = choose|i: int|
            0 <= i < t.len() && (#[trigger] t[i]).ch@[c].level > 0 && t[i].ch@[c].period == ps[j]
                && starts[r] <= t[i].frame < to;
        lemma_pitch(c as usize, ps[j]);
        assert(plays(t[i], c, n, samples));
        assert(is_of_row(t[i].frame, starts, r));
    }
}

proof fn lemma_slides(
    d: DraftView,
    t: Seq<FrameTrace>,
    c: int,
    starts: Seq<u32>,
    k: nat,
)
    requires
        0 <= c < NOI,
        k <= starts.len(),
        trace::in_order(t),
        all_sounded(d.rows, t, starts, d.slots),
    ensures
        ({
            let s = transcribe::slides_on(d, t, c, starts, k);
            &&& all_sounded(s.rows, t, starts, d.slots)
            &&& keeps_notes(d.rows, s.rows)
        }),
    decreases k,
{
    if k > 0 {
        lemma_slides(d, t, c, starts, (k - 1) as nat);
        let s = transcribe::slides_on(d, t, c, starts, (k - 1) as nat);
        let e = transcribe::slides_on(d, t, c, starts, k);
        lemma_moved(t, c, starts, d.slots, k - 1, s.sounding);
        assert forall|r: int, j: int|
            0 <= r < e.rows.len() && 0 <= j < CHANNELS && (#[trigger] e.rows[r][j]).note
                is Some implies is_sounded(t, starts, d.slots, j, r, e.rows[r][j].note->0) by {
            if e.rows[r][j] == s.rows[r][j] {
                assert(s.rows[r][j].note is Some);
            } else {
                assert(r == k - 1 && j == c);
            }
        }
    }
}

/// Whether notes that are there stay.
spec fn keeps_notes(a: Seq<Seq<Cell>>, b: Seq<Seq<Cell>>) -> bool {
    &&& a.len() == b.len()
    &&& forall|r: int, c: int|
        0 <= r < a.len() && 0 <= c < CHANNELS && (#[trigger] a[r][c]).note is Some ==> b[r][c].note
            == a[r][c].note
}

proof fn lemma_slid(d: DraftView, t: Seq<FrameTrace>, starts: Seq<u32>, c: nat)
    requires
        c <= NOI,
        trace::in_order(t),
        all_sounded(d.rows, t, starts, d.slots),
    ensures
        ({
            let s = transcribe::slid(d, t, starts, c);
            &&& all_sounded(s.rows, t, starts, d.slots)
            &&& keeps_notes(d.rows, s.rows)
            &&& s.slots == d.slots
        }),
    decreases c,
{
    if c > 0 {
        lemma_slid(d, t, starts, (c - 1) as nat);
        let before = transcribe::slid(d, t, starts, (c - 1) as nat);
        lemma_slides(before, t, c - 1, starts, starts.len());
    }
}

// ---------------------------------------------------------------- the rest

/// Whether two runs of rows have the same notes.
spec fn same_notes(a: Seq<Seq<Cell>>, b: Seq<Seq<Cell>>) -> bool {
    &&& a.len() == b.len()
    &&& forall|r: int| 0 <= r < a.len() ==> (#[trigger] a[r]).len() == b[r].len()
    &&& forall|r: int, c: int|
        0 <= r < a.len() && 0 <= c < CHANNELS ==> (#[trigger] a[r][c]).note == b[r][c].note
}

proof fn lemma_ends(rows: Seq<Seq<Cell>>, c: int, k: nat)
    requires
        0 <= c < CHANNELS,
        k <= rows.len(),
        forall|r: int| 0 <= r < rows.len() ==> (#[trigger] rows[r]).len() == CHANNELS,
    ensures
        same_notes(rows, transcribe::ends_on(rows, c, k).rows),
    decreases k,
{
    if k > 0 {
        lemma_ends(rows, c, (k - 1) as nat);
    }
}

proof fn lemma_ended(rows: Seq<Seq<Cell>>, c: nat)
    requires
        c <= CHANNELS,
        forall|r: int| 0 <= r < rows.len() ==> (#[trigger] rows[r]).len() == CHANNELS,
    ensures
        same_notes(rows, transcribe::ended(rows, c)),
    decreases c,
{
    if c > 0 {
        lemma_ended(rows, (c - 1) as nat);
        let before = transcribe::ended(rows, (c - 1) as nat);
        assert forall|r: int| 0 <= r < before.len() implies (#[trigger] before[r]).len()
            == CHANNELS by {
            assert(rows[r].len() == CHANNELS);
        }
        lemma_ends(before, c - 1, rows.len());
        let after = transcribe::ended(rows, c);
        assert forall|r: int, k: int| 0 <= r < rows.len() && 0 <= k < CHANNELS implies (
        #[trigger] rows[r][k]).note == after[r][k].note by {
            assert(rows[r][k].note == before[r][k].note);
        }
    }
}

proof fn lemma_holds(rows: Seq<Seq<Cell>>, t: Seq<FrameTrace>, c: int, starts: Seq<u32>, k: nat)
    requires
        0 <= c < CHANNELS,
        k <= rows.len(),
        forall|r: int| 0 <= r < rows.len() ==> (#[trigger] rows[r]).len() == CHANNELS,
    ensures
        same_notes(rows, transcribe::holds_on(rows, t, c, starts, k).rows),
    decreases k,
{
    if k > 0 {
        lemma_holds(rows, t, c, starts, (k - 1) as nat);
    }
}

proof fn lemma_held(rows: Seq<Seq<Cell>>, t: Seq<FrameTrace>, starts: Seq<u32>, c: nat)
    requires
        c <= CHANNELS,
        rows.len() == starts.len(),
        forall|r: int| 0 <= r < rows.len() ==> (#[trigger] rows[r]).len() == CHANNELS,
    ensures
        same_notes(rows, transcribe::held(rows, t, starts, c).0),
    decreases c,
{
    if c > 0 {
        lemma_held(rows, t, starts, (c - 1) as nat);
        let before = transcribe::held(rows, t, starts, (c - 1) as nat).0;
        assert forall|r: int| 0 <= r < before.len() implies (#[trigger] before[r]).len()
            == CHANNELS by {
            assert(rows[r].len() == CHANNELS);
        }
        lemma_holds(before, t, c - 1, starts, starts.len());
        let after = transcribe::held(rows, t, starts, c).0;
        assert forall|r: int, k: int| 0 <= r < rows.len() && 0 <= k < CHANNELS implies (
        #[trigger] rows[r][k]).note == after[r][k].note by {
            assert(rows[r][k].note == before[r][k].note);
        }
    }
}

proof fn lemma_voiced(
    rows: Seq<Seq<Cell>>,
    p: Seq<PlacedView>,
    at: Seq<usize>,
    instruments: Seq<Instrument>,
    k: nat,
)
    requires
        k <= p.len(),
        ripper::on_channels(p),
        forall|r: int| 0 <= r < rows.len() ==> (#[trigger] rows[r]).len() == CHANNELS,
    ensures
        same_notes(rows, ripper::all_voiced(rows, p, at, instruments, k)),
    decreases k,
{
    if k > 0 {
        lemma_voiced(rows, p, at, instruments, (k - 1) as nat);
        assert(p[k - 1].env.ch < CHANNELS);
        let before = ripper::all_voiced(rows, p, at, instruments, (k - 1) as nat);
        assert forall|r: int, c: int| 0 <= r < rows.len() && 0 <= c < CHANNELS implies (
        #[trigger] rows[r][c]).note == ripper::all_voiced(rows, p, at, instruments, k)[r][c].note by {
            assert(rows[r][c].note == before[r][c].note);
            assert(rows[r].len() == before[r].len());
        }
    }
}

/// The rows of a ripped song before it is cut into phrases, and the notes on
/// them.
proof fn lemma_rows(t: Seq<FrameTrace>, bpm: Option<u16>) -> (rows: Seq<Seq<Cell>>)
    requires
        trace::in_order(t),
        ripper::ripped(t, bpm) is Ok,
    ensures
        ({
            let (s, report, g) = ripper::ripped(t, bpm)->Ok_0;
            let d = transcribe::struck(t, g.starts, t.len());
            &&& g.starts.len() > 0
            &&& clock::climbing(g.starts)
            &&& rows.len() == report.rows <= g.starts.len()
            &&& (s.phrases, s.order) == song::shared_rows(rows, song::phrase_count(rows.len()))
            &&& d.rows.len() == g.starts.len()
            &&& forall|r: int, c: int|
                0 <= r < rows.len() && 0 <= c < CHANNELS && (#[trigger] rows[r][c]).note is Some
                    ==> is_sounded(t, g.starts, report.dpcm_samples, c, r, rows[r][c].note->0)
            &&& forall|r: int, c: int|
                0 <= r < rows.len() && 0 <= c < CHANNELS && (#[trigger] d.rows[r][c]).note is Some
                    ==> rows[r][c].note == d.rows[r][c].note
        }),
{
    let g = clock::grid_of(t, bpm);
    let starts = g.starts;
    clock::lemma_grid_climbs(t, bpm);
    let score = transcribe::score_of(t, starts);
    let d = transcribe::struck(t, starts, t.len());
    lemma_struck(t, starts, t.len());
    let s = transcribe::slid(d, t, starts, NOI as nat);
    lemma_slid(d, t, starts, NOI as nat);
    lemma_ended(s.rows, CHANNELS as nat);
    let e = transcribe::ended(s.rows, CHANNELS as nat);
    assert forall|r: int| 0 <= r < e.len() implies (#[trigger] e[r]).len() == CHANNELS by {
        assert(s.rows[r].len() == CHANNELS);
    }
    lemma_held(e, t, starts, DMC as nat);
    let h = transcribe::held(e, t, starts, DMC as nat).0;
    lemma_music(h, h.len());
    let music = h.take(transcribe::music_len(h, h.len()) as int);
    lemma_fold_bound(music, STEPS_PER_PHRASE as nat);
    assert forall|r: int| 0 <= r < score.rows.len() implies (#[trigger] score.rows[r]).len()
        == CHANNELS by {
        assert(score.rows[r] == h[r]);
        assert(e[r].len() == CHANNELS);
    }
    let (instruments, at) = crate::rip::envelope::synthesised(ripper::envs(score.placed));
    let rows = ripper::all_voiced(score.rows, score.placed, at, instruments, score.placed.len());
    ripper::lemma_struck(t, starts, t.len());
    ripper::lemma_slid(d, t, starts, NOI as nat);
    lemma_voiced(score.rows, score.placed, at, instruments, score.placed.len());
    assert forall|r: int, c: int| 0 <= r < rows.len() && 0 <= c < CHANNELS implies (
    #[trigger] rows[r][c]).note == s.rows[r][c].note by {
        assert(score.rows[r][c].note == rows[r][c].note);
        assert(score.rows[r] == h[r]);
        assert(e[r][c].note == h[r][c].note);
        assert(s.rows[r][c].note == e[r][c].note);
    }
    assert forall|r: int, c: int|
        0 <= r < rows.len() && 0 <= c < CHANNELS && (#[trigger] rows[r][c]).note
            is Some implies is_sounded(t, starts, score.slots, c, r, rows[r][c].note->0) by {
        assert(s.rows[r][c].note is Some);
    }
    assert forall|r: int, c: int|
        0 <= r < rows.len() && 0 <= c < CHANNELS && (#[trigger] d.rows[r][c]).note
            is Some implies rows[r][c].note == d.rows[r][c].note by {
        assert(s.rows[r][c].note == d.rows[r][c].note);
        assert(rows[r][c].note == s.rows[r][c].note);
    }
    rows
}

proof fn lemma_music(rows: Seq<Seq<Cell>>, n: nat)
    ensures
        transcribe::music_len(rows, n) <= n,
    decreases n,
{
    if n > STEPS_PER_PHRASE && transcribe::is_still(rows[n - 1]) {
        lemma_music(rows, (n - 1) as nat);
    }
}

proof fn lemma_fold_bound(rows: Seq<Seq<Cell>>, p: nat)
    ensures
        transcribe::fold_at(rows, p) matches Some(q) ==> q <= rows.len(),
    decreases rows.len() + STEPS_PER_PHRASE - p,
{
    if !(p == 0 || p * 2 > rows.len()) && !transcribe::repeats(rows, p) {
        lemma_fold_bound(rows, p + STEPS_PER_PHRASE as nat);
    }
}

/// A row of a ripped song is found through its order.
proof fn lemma_song_cell(t: Seq<FrameTrace>, bpm: Option<u16>, rows: Seq<Seq<Cell>>, r: int, c: int)
    requires
        ripper::ripped(t, bpm) is Ok,
        ({
            let s = (ripper::ripped(t, bpm)->Ok_0).0;
            (s.phrases, s.order) == song::shared_rows(rows, song::phrase_count(rows.len()))
        }),
        rows.len() <= 0x1_0000_0000,
        0 <= r < rows.len(),
    ensures
        song_cell((ripper::ripped(t, bpm)->Ok_0).0, r, c) == rows[r][c],
        r / 16 < (ripper::ripped(t, bpm)->Ok_0).0.order.len(),
{
    let n = song::phrase_count(rows.len());
    song::law_sharing_keeps_rows(rows, n, r / 16);
}

/// Each note of a ripped song is one that the chip sounded: on some frame of
/// the note's row its channel is heard, and plays that note.
pub proof fn law_ripped_notes_were_sounded(t: Seq<FrameTrace>, bpm: Option<u16>, r: int, c: int)
    requires
        trace::in_order(t),
        ripper::ripped(t, bpm) is Ok,
        0 <= r < (ripper::ripped(t, bpm)->Ok_0).1.rows,
        0 <= c < CHANNELS,
    ensures
        ({
            let (s, report, g) = ripper::ripped(t, bpm)->Ok_0;
            song_cell(s, r, c).note matches Some(n) ==> is_sounded(
                t,
                g.starts,
                report.dpcm_samples,
                c,
                r,
                n,
            )
        }),
{
    let rows = lemma_rows(t, bpm);
    clock::lemma_grid_climbs(t, bpm);
    ripper::lemma_climbing_len(clock::grid_of(t, bpm).starts);
    lemma_song_cell(t, bpm, rows, r, c);
}

// ---------------------------------------------------------------- nothing is lost

/// Whether the hardware sounds a channel's period: a pulse is mute below
/// period 8 and the triangle below period 2.
pub open spec fn is_named(f: FrameTrace, c: int) -> bool {
    f.ch@[c].period >= (if c == TRI {
        2
    } else {
        8int
    })
}

/// A period has a note whenever some note is the nearest to it.
proof fn lemma_has_pitch(c: int, p: u16, n: u8)
    requires
        0 <= c < NOI,
        p >= (if c == TRI {
            2
        } else {
            8int
        }),
        n < 128,
        tuning::is_nearest(n as nat, divider(c) * (p as nat + 1)),
    ensures
        pitch::pitch_of(c as usize, p) == Some(n),
{
    tuning::law_pulse_note_is_nearest(p);
    tuning::law_triangle_note_is_nearest(p);
    let x = divider(c) * (p as nat + 1);
    tuning::lemma_reaches_down(n as nat, 0, x);
    if tuning::reaches(128, x) {
        tuning::lemma_reaches_down(128, n as nat + 1, x);
    }
    if let Some(m) = pitch::pitch_of(c as usize, p) {
        tuning::law_nearest_is_one(m as nat, n as nat, x);
    }
}

/// The note of the first entry of the first `k` that strikes a channel on a
/// row.
spec fn first_note(t: Seq<FrameTrace>, starts: Seq<u32>, c: int, r: int, k: nat) -> Option<u8>
    decreases k,
{
    if k == 0 {
        None
    } else {
        match first_note(t, starts, c, r, (k - 1) as nat) {
            Some(n) => Some(n),
            None => if trace::strikes(t[k - 1], c) && clock::nearest_index(
                starts,
                t[k - 1].frame,
            ) == r {
                transcribe::struck_note(t[k - 1], c, Seq::empty())
            } else {
                None
            },
        }
    }
}

proof fn lemma_first_frame(
    d: DraftView,
    t: Seq<FrameTrace>,
    starts: Seq<u32>,
    i: int,
    k: nat,
    c: int,
    r: int,
)
    requires
        clock::climbing(starts),
        starts.len() > 0,
        0 <= i < t.len(),
        k <= CHANNELS,
        0 <= c < DMC,
        0 <= r < starts.len(),
        all_sounded(d.rows, t, starts, d.slots),
    ensures
        ({
            let e = transcribe::frame_strikes(d, t, starts, i, k);
            e.rows[r][c].note == (if c < k && d.rows[r][c].note is None && trace::strikes(t[i], c)
                && clock::nearest_index(starts, t[i].frame) == r {
                transcribe::struck_note(t[i], c, Seq::empty())
            } else {
                d.rows[r][c].note
            })
        }),
    decreases k,
{
    if k > 0 {
        lemma_first_frame(d, t, starts, i, (k - 1) as nat, c, r);
        lemma_frame(d, t, starts, i, (k - 1) as nat);
        let b = transcribe::frame_strikes(d, t, starts, i, (k - 1) as nat);
        let e = transcribe::frame_strikes(d, t, starts, i, k);
        lemma_nearest(starts, t[i].frame);
        let r0 = clock::nearest_index(starts, t[i].frame) as int;
        assert(b.rows[r0].len() == CHANNELS);
        assert(b.rows[r].len() == CHANNELS);
        if !(r == r0 && c == k - 1) {
            assert(e.rows[r][c] == b.rows[r][c]);
        }
    }
}

proof fn lemma_first(t: Seq<FrameTrace>, starts: Seq<u32>, k: nat, c: int, r: int)
    requires
        clock::climbing(starts),
        starts.len() > 0,
        k <= t.len(),
        0 <= c < DMC,
        0 <= r < starts.len(),
    ensures
        transcribe::struck(t, starts, k).rows[r][c].note == first_note(t, starts, c, r, k),
    decreases k,
{
    if k > 0 {
        lemma_first(t, starts, (k - 1) as nat, c, r);
        lemma_struck(t, starts, (k - 1) as nat);
        lemma_first_frame(
            transcribe::struck(t, starts, (k - 1) as nat),
            t,
            starts,
            k - 1,
            CHANNELS as nat,
            c,
            r,
        );
    }
}

proof fn lemma_first_is(t: Seq<FrameTrace>, starts: Seq<u32>, c: int, r: int, i: int, k: nat, n: u8)
    requires
        0 <= i < k <= t.len(),
        trace::strikes(t[i], c),
        clock::nearest_index(starts, t[i].frame) == r,
        transcribe::struck_note(t[i], c, Seq::empty()) == Some(n),
        forall|j: int|
            0 <= j < i && trace::strikes(#[trigger] t[j], c) ==> clock::nearest_index(
                starts,
                t[j].frame,
            ) != r,
    ensures
        first_note(t, starts, c, r, k) == Some(n),
    decreases k,
{
    if k - 1 == i {
        lemma_none_before(t, starts, c, r, i as nat);
    } else {
        lemma_first_is(t, starts, c, r, i, (k - 1) as nat, n);
    }
}

proof fn lemma_none_before(t: Seq<FrameTrace>, starts: Seq<u32>, c: int, r: int, k: nat)
    requires
        k <= t.len(),
        forall|j: int|
            0 <= j < k && trace::strikes(#[trigger] t[j], c) ==> clock::nearest_index(
                starts,
                t[j].frame,
            ) != r,
    ensures
        first_note(t, starts, c, r, k) is None,
    decreases k,
{
    if k > 0 {
        lemma_none_before(t, starts, c, r, (k - 1) as nat);
    }
}

/// No struck note is lost: the first that a channel strikes nearest to a row
/// is on that row of the song, as the note that its frame plays.
pub proof fn law_struck_notes_are_written(t: Seq<FrameTrace>, bpm: Option<u16>, i: int, c: int, n: u8)
    requires
        trace::in_order(t),
        ripper::ripped(t, bpm) is Ok,
        0 <= i < t.len(),
        0 <= c < NOI,
        t[i].ch@[c].keyed && t[i].ch@[c].level > 0,
        is_named(t[i], c),
        plays(t[i], c, n, Seq::empty()),
        ({
            let g = (ripper::ripped(t, bpm)->Ok_0).2;
            let r = clock::nearest_index(g.starts, t[i].frame);
            &&& r < (ripper::ripped(t, bpm)->Ok_0).1.rows
            &&& forall|j: int|
                0 <= j < i && (#[trigger] t[j]).ch@[c].keyed && t[j].ch@[c].level > 0
                    ==> clock::nearest_index(g.starts, t[j].frame) != r
        }),
    ensures
        ({
            let (s, _, g) = ripper::ripped(t, bpm)->Ok_0;
            song_cell(s, clock::nearest_index(g.starts, t[i].frame) as int, c).note == Some(n)
        }),
{
    let rows = lemma_rows(t, bpm);
    clock::lemma_grid_climbs(t, bpm);
    ripper::lemma_climbing_len(clock::grid_of(t, bpm).starts);
    let starts = clock::grid_of(t, bpm).starts;
    let r = clock::nearest_index(starts, t[i].frame) as int;
    lemma_song_cell(t, bpm, rows, r, c);
    lemma_has_pitch(c, t[i].ch@[c].period, n);
    assert(transcribe::struck_note(t[i], c, Seq::empty()) == Some(n));
    lemma_first_is(t, starts, c, r, i, t.len(), n);
    lemma_first(t, starts, t.len(), c, r);
    assert(transcribe::struck(t, starts, t.len()).rows[r][c].note == Some(n));
}

/// No struck noise is lost either: it is written as one of the notes of its
/// period.
pub proof fn law_struck_noise_is_written(t: Seq<FrameTrace>, bpm: Option<u16>, i: int)
    requires
        trace::in_order(t),
        ripper::ripped(t, bpm) is Ok,
        0 <= i < t.len(),
        t[i].ch@[NOI as int].keyed && t[i].ch@[NOI as int].level > 0,
        ({
            let g = (ripper::ripped(t, bpm)->Ok_0).2;
            let r = clock::nearest_index(g.starts, t[i].frame);
            &&& r < (ripper::ripped(t, bpm)->Ok_0).1.rows
            &&& forall|j: int|
                0 <= j < i && (#[trigger] t[j]).ch@[NOI as int].keyed && t[j].ch@[NOI as int].level
                    > 0 ==> clock::nearest_index(g.starts, t[j].frame) != r
        }),
    ensures
        ({
            let (s, _, g) = ripper::ripped(t, bpm)->Ok_0;
            let r = clock::nearest_index(g.starts, t[i].frame) as int;
            song_cell(s, r, NOI as int).note matches Some(n) && plays(
                t[i],
                NOI as int,
                n,
                Seq::empty(),
            )
        }),
{
    let rows = lemma_rows(t, bpm);
    let c = NOI as int;
    clock::lemma_grid_climbs(t, bpm);
    ripper::lemma_climbing_len(clock::grid_of(t, bpm).starts);
    let starts = clock::grid_of(t, bpm).starts;
    let r = clock::nearest_index(starts, t[i].frame) as int;
    lemma_song_cell(t, bpm, rows, r, c);
    let n = transcribe::struck_note(t[i], c, Seq::empty())->0;
    lemma_first_is(t, starts, c, r, i, t.len(), n);
    lemma_first(t, starts, t.len(), c, r);
    assert(transcribe::struck(t, starts, t.len()).rows[r][c].note == Some(n));
}

} // verus!
