//! What a transcription found, and what it could not keep.

use vstd::prelude::*;

use crate::binary;
use crate::rip::clock;
use crate::rip::clock::Fit;
use crate::rip::trace;
use crate::rip::trace::FrameTrace;
use crate::rip::transcribe;
use crate::rip::transcribe::{Placed, PlacedView};
use crate::song::CHANNELS;
use crate::text;

verus! {

// ---------------------------------------------------------------- counts

/// How many of the first `k` notes are on a channel.
pub open spec fn notes_on(p: Seq<PlacedView>, c: int, k: nat) -> nat
    decreases k,
{
    if k == 0 {
        0
    } else {
        notes_on(p, c, (k - 1) as nat) + if p[k - 1].env.ch == c {
            1nat
        } else {
            0
        }
    }
}

/// How many of the first `k` notes move in pitch.
pub open spec fn moving(p: Seq<PlacedView>, k: nat) -> nat
    decreases k,
{
    if k == 0 {
        0
    } else {
        moving(p, (k - 1) as nat) + if p[k - 1].moves {
            1nat
        } else {
            0
        }
    }
}

/// How many of the first `c` channels start a note without volume.
pub open spec fn silent_on(f: FrameTrace, c: nat) -> nat
    decreases c,
{
    if c == 0 {
        0
    } else {
        silent_on(f, (c - 1) as nat) + if f.ch@[c - 1].keyed && f.ch@[c - 1].level == 0 {
            1nat
        } else {
            0
        }
    }
}

/// How many notes the first `k` entries start without volume.
pub open spec fn silent_keyons(t: Seq<FrameTrace>, k: nat) -> nat
    decreases k,
{
    if k == 0 {
        0
    } else {
        silent_keyons(t, (k - 1) as nat) + silent_on(t[k - 1], CHANNELS as nat)
    }
}

/// Whether the hardware moves some channel's pitch on a frame.
pub open spec fn sweeps(f: FrameTrace) -> bool {
    exists|c: int| 0 <= c < CHANNELS && (#[trigger] f.ch@[c]).sweep != 0
}

/// Whether the hardware shapes the level of some tone channel on a frame.
pub open spec fn shapes(f: FrameTrace) -> bool {
    exists|c: int|
        0 <= c < 4 && !(#[trigger] f.ch@[c]).constant_vol && f.ch@[c].level > 0
}

pub open spec fn sweep_frames(t: Seq<FrameTrace>, k: nat) -> nat
    decreases k,
{
    if k == 0 {
        0
    } else {
        sweep_frames(t, (k - 1) as nat) + if sweeps(t[k - 1]) {
            1nat
        } else {
            0
        }
    }
}

pub open spec fn shaped_frames(t: Seq<FrameTrace>, k: nat) -> nat
    decreases k,
{
    if k == 0 {
        0
    } else {
        shaped_frames(t, (k - 1) as nat) + if shapes(t[k - 1]) {
            1nat
        } else {
            0
        }
    }
}

pub fn count_notes(p: &Vec<Placed>, c: usize) -> (r: usize)
    ensures
        r == notes_on(transcribe::placed_views(p@), c as int, p@.len()),
{
    let ghost v = transcribe::placed_views(p@);
    let mut n: usize = 0;
    for k in 0..p.len()
        invariant
            v == transcribe::placed_views(p@),
            n == notes_on(v, c as int, k as nat),
            n <= k,
    {
        assert(v[k as int] == p@[k as int]@);
        if p[k].env.ch == c {
            n += 1;
        }
    }
    n
}

pub fn count_moving(p: &Vec<Placed>) -> (r: usize)
    ensures
        r == moving(transcribe::placed_views(p@), p@.len()),
{
    let ghost v = transcribe::placed_views(p@);
    let mut n: usize = 0;
    for k in 0..p.len()
        invariant
            v == transcribe::placed_views(p@),
            n == moving(v, k as nat),
            n <= k,
    {
        assert(v[k as int] == p@[k as int]@);
        if p[k].moves {
            n += 1;
        }
    }
    n
}

pub fn count_silent(t: &[FrameTrace]) -> (r: u64)
    requires
        trace::in_order(t@),
    ensures
        r == silent_keyons(t@, t@.len()),
{
    let mut n: u64 = 0;
    for k in 0..t.len()
        invariant
            trace::in_order(t@),
            n == silent_keyons(t@, k as nat),
            n <= 5 * k,
    {
        let ghost before = n;
        let mut m: u64 = 0;
        for c in 0..CHANNELS
            invariant
                k < t@.len(),
                m == silent_on(t@[k as int], c as nat),
                m <= c,
        {
            if t[k].ch[c].keyed && t[k].ch[c].level == 0 {
                m += 1;
            }
        }
        n += m;
    }
    n
}

fn does_sweep(f: &FrameTrace) -> (r: bool)
    ensures
        r == sweeps(*f),
{
    for c in 0..CHANNELS
        invariant
            forall|d: int| 0 <= d < c ==> (#[trigger] f.ch@[d]).sweep == 0,
    {
        if f.ch[c].sweep != 0 {
            assert(f.ch@[c as int].sweep != 0);
            return true;
        }
    }
    false
}

fn does_shape(f: &FrameTrace) -> (r: bool)
    ensures
        r == shapes(*f),
{
    for c in 0..4usize
        invariant
            forall|d: int|
                0 <= d < c ==> !(!(#[trigger] f.ch@[d]).constant_vol && f.ch@[d].level > 0),
    {
        if !f.ch[c].constant_vol && f.ch[c].level > 0 {
            assert(!f.ch@[c as int].constant_vol);
            return true;
        }
    }
    false
}

pub fn count_sweeps(t: &[FrameTrace]) -> (r: usize)
    ensures
        r == sweep_frames(t@, t@.len()),
{
    let mut n: usize = 0;
    for k in 0..t.len()
        invariant
            n == sweep_frames(t@, k as nat),
            n <= k,
    {
        if does_sweep(&t[k]) {
            n += 1;
        }
    }
    n
}

pub fn count_shaped(t: &[FrameTrace]) -> (r: usize)
    ensures
        r == shaped_frames(t@, t@.len()),
{
    let mut n: usize = 0;
    for k in 0..t.len()
        invariant
            n == shaped_frames(t@, k as nat),
            n <= k,
    {
        if does_shape(&t[k]) {
            n += 1;
        }
    }
    n
}

// ---------------------------------------------------------------- the report

#[derive(Clone, Debug)]
pub struct Report {
    pub source: String,
    pub frames: usize,
    /// Start and length of the loop, in frames.
    pub loop_frames: Option<(u32, u32)>,
    pub bpm: u16,
    pub fit: Option<Fit>,
    pub rows: usize,
    pub phrases_total: usize,
    pub phrases_unique: usize,
    /// Instruments made from the envelopes the notes played.
    pub instruments: usize,
    /// Notes that carry a recovered effect.
    pub effects: usize,
    /// Notes found only because the pitch moved without a key-on.
    pub slide_targets: u64,
    /// Notes written, per channel.
    pub notes: [usize; CHANNELS],
    /// Key-ons dropped because the channel had no volume.
    pub silent_keyons: u64,
    /// Notes whose period has no name.
    pub unpitched: u64,
    pub holds: u64,
    /// Notes dropped because another held their row.
    pub row_collisions: u64,
    /// How many rows the song was folded to, where they repeat.
    pub folded_at: Option<usize>,
    pub sweep_frames: usize,
    pub hw_env_frames: usize,
    /// Sample addresses in order of first use.
    pub dpcm_samples: Vec<u8>,
}

#[verifier::ext_equal]
pub struct ReportView {
    pub source: Seq<char>,
    pub frames: nat,
    pub loop_frames: Option<(u32, u32)>,
    pub bpm: u16,
    pub fit: Option<Fit>,
    pub rows: nat,
    pub phrases_total: nat,
    pub phrases_unique: nat,
    pub instruments: nat,
    pub effects: nat,
    pub slide_targets: nat,
    pub notes: Seq<usize>,
    pub silent_keyons: nat,
    pub unpitched: nat,
    pub holds: nat,
    pub row_collisions: nat,
    pub folded_at: Option<nat>,
    pub sweep_frames: nat,
    pub hw_env_frames: nat,
    pub dpcm_samples: Seq<u8>,
}

impl View for Report {
    type V = ReportView;

    open spec fn view(&self) -> ReportView {
        ReportView {
            source: self.source@,
            frames: self.frames as nat,
            loop_frames: self.loop_frames,
            bpm: self.bpm,
            fit: self.fit,
            rows: self.rows as nat,
            phrases_total: self.phrases_total as nat,
            phrases_unique: self.phrases_unique as nat,
            instruments: self.instruments as nat,
            effects: self.effects as nat,
            slide_targets: self.slide_targets as nat,
            notes: self.notes@,
            silent_keyons: self.silent_keyons as nat,
            unpitched: self.unpitched as nat,
            holds: self.holds as nat,
            row_collisions: self.row_collisions as nat,
            folded_at: match self.folded_at {
                Some(p) => Some(p as nat),
                None => None,
            },
            sweep_frames: self.sweep_frames as nat,
            hw_env_frames: self.hw_env_frames as nat,
            dpcm_samples: self.dpcm_samples@,
        }
    }
}

/// A report of nothing.
pub open spec fn blank_report() -> ReportView {
    ReportView {
        source: Seq::empty(),
        frames: 0,
        loop_frames: None,
        bpm: 0,
        fit: None,
        rows: 0,
        phrases_total: 0,
        phrases_unique: 0,
        instruments: 0,
        effects: 0,
        slide_targets: 0,
        notes: Seq::new(CHANNELS as nat, |c: int| 0usize),
        silent_keyons: 0,
        unpitched: 0,
        holds: 0,
        row_collisions: 0,
        folded_at: None,
        sweep_frames: 0,
        hw_env_frames: 0,
        dpcm_samples: Seq::empty(),
    }
}

impl Default for Report {
    fn default() -> (r: Report)
        ensures
            r@ == blank_report(),
    {
        let r: Report = Report {
            source: String::new(),
            frames: 0,
            loop_frames: None,
            bpm: 0,
            fit: None,
            rows: 0,
            phrases_total: 0,
            phrases_unique: 0,
            instruments: 0,
            effects: 0,
            slide_targets: 0,
            notes: [0; CHANNELS],
            silent_keyons: 0,
            unpitched: 0,
            holds: 0,
            row_collisions: 0,
            folded_at: None,
            sweep_frames: 0,
            hw_env_frames: 0,
            dpcm_samples: Vec::new(),
        };
        assert(r@.notes =~= blank_report().notes);
        assert(r@ =~= blank_report());
        r
    }
}

// ---------------------------------------------------------------- its text

/// A number and spaces up to five places.
pub open spec fn padded(n: nat) -> Seq<char> {
    text::dec(n) + Seq::new(
        if text::dec(n).len() < 5 {
            (5 - text::dec(n).len()) as nat
        } else {
            0
        },
        |i: int| ' ',
    )
}

fn put_padded(out: &mut Vec<char>, n: usize)
    ensures
        final(out)@ == old(out)@ + padded(n as nat),
{
    let ghost before = out@;
    let digits: Vec<char> = text::numeral_of(n as u128, 10);
    text::put(out, digits.as_slice());
    let mut k: usize = digits.len();
    while k < 5
        invariant
            digits@ == text::dec(n as nat),
            digits@.len() <= k,
            k <= 5 || k == digits@.len(),
            out@ == before + digits@ + Seq::new((k - digits@.len()) as nat, |i: int| ' '),
        decreases 5 - k,
    {
        out.push(' ');
        assert(out@ =~= before + digits@ + Seq::new((k + 1 - digits@.len()) as nat, |i: int| ' '));
        k += 1;
    }
    assert(out@ =~= before + padded(n as nat));
}

/// Bytes in hexadecimal, in brackets, the first `k` of them.
pub open spec fn bytes_text(v: Seq<u8>, k: nat) -> Seq<char>
    decreases k,
{
    if k == 0 {
        Seq::empty()
    } else if k == 1 {
        text::hex2(v[0] as nat)
    } else {
        bytes_text(v, (k - 1) as nat) + ", "@ + text::hex2(v[k - 1] as nat)
    }
}

fn put_bytes(out: &mut Vec<char>, v: &Vec<u8>)
    ensures
        final(out)@ == old(out)@ + bytes_text(v@, v@.len()),
{
    let ghost before = out@;
    assert(out@ =~= before + bytes_text(v@, 0));
    for i in 0..v.len()
        invariant
            out@ == before + bytes_text(v@, i as nat),
    {
        if i > 0 {
            text::put_str(out, ", ");
        }
        text::put_hex2(out, v[i] as u64);
        assert(out@ =~= before + bytes_text(v@, (i + 1) as nat));
    }
}

/// The tempo that a row length is taken from.
pub open spec fn tempo_of(bpm: u16) -> int {
    if bpm == 0 {
        1
    } else {
        bpm as int
    }
}

/// The frames of a row at a tempo, in double precision.
pub open spec fn frames_per_row(bpm: u16) -> (nat, nat) {
    binary::nearest(900, tempo_of(bpm) as nat, binary::DOUBLE as nat)
}

/// So many frames as rows, in double precision, with two decimals.
pub open spec fn rows_text(frames: nat, bpm: u16) -> Seq<char> {
    let (n, d) = frames_per_row(bpm);
    binary::shown(frames * d, n, binary::DOUBLE as nat)
}

/// A share in double precision, times a hundred in double precision, to the
/// nearest whole number.
pub open spec fn percent(k: nat, of: nat) -> nat {
    let (n, d) = binary::nearest(k, of, binary::DOUBLE as nat);
    text::rounded(
        binary::whole(100 * n, binary::DOUBLE as nat) as int,
        d as int,
    ) as nat
}

/// Frames as seconds, in double precision, with two decimals. There are
/// 60.0988 frames in a second, as near as a double-precision number comes.
pub open spec fn seconds_text(frames: nat) -> Seq<char> {
    let n = binary::whole(frames, binary::DOUBLE as nat);
    binary::shown(
        n * 0x4000_0000_0000,
        4_229_077_082_584_593,
        binary::DOUBLE as nat,
    )
}

/// How the tempo was found.
pub open spec fn fit_text(f: Fit, bpm: u16) -> Seq<char> {
    match f {
        Fit::Told => "TOLD"@,
        Fit::Exact { ambiguous: None } => "INFERRED, exact: every onset lands on a row start"@,
        Fit::Exact { ambiguous: Some((lo, hi)) } =>
            "INFERRED, exact: every onset lands on a row start, but "@ + text::dec(lo as nat) + "–"@
            + text::dec(hi as nat)
            + " BPM fit equally — this song is too short to tell them apart"@,
        Fit::Fitted { worst_frames, within, of } => "INFERRED, fitted: "@ + text::numeral(
            percent(within as nat, of as nat),
            10,
        ) + "% of onsets within 0.25 rows, worst "@ + rows_text(worst_frames as nat, bpm),
        Fit::Guessed { worst_frames, collisions } => "INFERRED, GUESSED: worst "@ + rows_text(
            worst_frames as nat,
            bpm,
        ) + " rows, "@ + text::dec(collisions as nat) + " onsets collided on a row"@ + (
        if collisions > 0 {
            " — the grid may be too coarse, try --bpm"@
        } else {
            Seq::empty()
        }),
    }
}

fn put_fit(out: &mut Vec<char>, f: Fit, bpm: u16)
    requires
        clock::sound_fit(f),
    ensures
        final(out)@ == old(out)@ + fit_text(f, bpm),
{
    let ghost before = out@;
    match f {
        Fit::Told => text::put_str(out, "TOLD"),
        Fit::Exact { ambiguous } => match ambiguous {
            None => text::put_str(out, "INFERRED, exact: every onset lands on a row start"),
            Some((lo, hi)) => {
                text::put_str(out, "INFERRED, exact: every onset lands on a row start, but ");
                text::put_dec(out, lo as u64);
                text::put_str(out, "–");
                text::put_dec(out, hi as u64);
                text::put_str(
                    out,
                    " BPM fit equally — this song is too short to tell them apart",
                );
                assert(out@ =~= before + fit_text(f, bpm));
            },
        },
        Fit::Fitted { worst_frames, within, of } => {
            text::put_str(out, "INFERRED, fitted: ");
            let share: Vec<char> = text::numeral_of(find_percent(within as u64, of as u64), 10);
            text::put(out, share.as_slice());
            text::put_str(out, "% of onsets within 0.25 rows, worst ");
            put_rows(out, worst_frames, bpm);
            assert(out@ =~= before + fit_text(f, bpm));
        },
        Fit::Guessed { worst_frames, collisions } => {
            text::put_str(out, "INFERRED, GUESSED: worst ");
            put_rows(out, worst_frames, bpm);
            text::put_str(out, " rows, ");
            text::put_dec(out, collisions);
            text::put_str(out, " onsets collided on a row");
            if collisions > 0 {
                text::put_str(out, " — the grid may be too coarse, try --bpm");
            }
            assert(out@ =~= before + fit_text(f, bpm));
        },
    }
}

fn put_rows(out: &mut Vec<char>, frames: u32, bpm: u16)
    ensures
        final(out)@ == old(out)@ + rows_text(frames as nat, bpm),
{
    let tempo: u128 = if bpm == 0 {
        1
    } else {
        bpm as u128
    };
    let (n, d): (u128, u128) = binary::find_nearest(900, tempo, binary::DOUBLE);
    proof {
        lemma_row_length(tempo as nat);
        assert(frames * d <= 0xffff_ffff * 0x8000_0000_0000_0000) by (nonlinear_arith)
            requires
                frames <= 0xffff_ffff,
                d <= 0x8000_0000_0000_0000,
        ;
    }
    binary::put_shown(out, frames as u128 * d, n, binary::DOUBLE);
}

proof fn lemma_row_length(tempo: nat)
    requires
        1 <= tempo <= u16::MAX,
    ensures
        ({
            let (n, d) = binary::nearest(900, tempo, binary::DOUBLE as nat);
            0 < n <= 0x20_0000_0000_0001 && 0 < d <= 0x8000_0000_0000_0000
        }),
{
    let limit = binary::DOUBLE as nat;
    binary::lemma_fine(900, tempo, limit, 1);
    let s = binary::fine_scale(900, tempo, limit, 1);
    binary::lemma_full(900, tempo, limit, 1);
    let x = (900 * s) as int;
    let t = tempo as int;
    assert(x / t > 0 && x / t < limit) by (nonlinear_arith)
        requires
            2 * x >= limit * t,
            x < limit * t,
            limit == 0x20_0000_0000_0000,
            t > 0,
    ;
}

fn find_percent(k: u64, of: u64) -> (r: u128)
    requires
        0 < of <= u32::MAX,
        k <= of,
    ensures
        r == percent(k as nat, of as nat),
{
    let (n, d): (u128, u128) = binary::find_nearest(k as u128, of as u128, binary::DOUBLE);
    let m: u128 = binary::find_whole(100 * n, binary::DOUBLE);
    text::round(m, d)
}

fn put_seconds(out: &mut Vec<char>, frames: usize)
    ensures
        final(out)@ == old(out)@ + seconds_text(frames as nat),
{
    let n: u128 = binary::find_whole(frames as u128, binary::DOUBLE);
    binary::put_shown(out, n * 0x4000_0000_0000, 4_229_077_082_584_593, binary::DOUBLE);
}

/// Where the music came from and how its tempo was found.
pub open spec fn head_text(r: ReportView) -> Seq<char> {
    let s = "source   "@ + r.source + ", "@ + text::dec(r.frames) + " frames ("@ + seconds_text(
        r.frames,
    ) + "s)\n"@;
    let s = match r.loop_frames {
        Some((start, len)) => s + "loop     "@ + text::dec(len as nat)
            + " frames, repeating from frame "@ + text::dec(start as nat)
            + " (driver RAM state; the start can overshoot)\n"@,
        None => s + "loop     not detected\n"@,
    };
    match r.fit {
        Some(f) => s + "tempo    "@ + text::dec(r.bpm as nat) + " BPM, "@ + binary::shown(
            900,
            tempo_of(r.bpm) as nat,
            binary::DOUBLE as nat,
        ) + " frames/row — "@ + fit_text(f, r.bpm) + "\n"@,
        None => s,
    }
}

/// What was written.
pub open spec fn notes_text(s: Seq<char>, r: ReportView) -> Seq<char> {
    let s = s + "rows     "@ + text::dec(r.rows) + " → "@ + text::dec(r.phrases_total)
        + " phrases ("@ + text::dec(r.phrases_unique) + " unique)\n"@;
    let s = match r.folded_at {
        Some(p) => s + "         the rows repeat every "@ + text::dec(p)
            + ", so the trailing copy was folded away\n"@,
        None => s,
    };
    let s = s + "notes    "@ + "PU1 "@ + padded(r.notes[0] as nat) + "PU2 "@ + padded(
        r.notes[1] as nat,
    ) + "TRI "@ + padded(r.notes[2] as nat) + "NOI "@ + padded(r.notes[3] as nat) + "DPCM "@
        + padded(r.notes[4] as nat) + "holds "@ + text::dec(r.holds) + "\n"@;
    let s = if r.silent_keyons > 0 {
        s + "         "@ + text::dec(r.silent_keyons) + " key-on"@ + (if r.silent_keyons == 1 {
            ""@
        } else {
            "s"@
        }) + " suppressed (no volume at onset)\n"@
    } else {
        s
    };
    let s = if r.row_collisions > 0 {
        s + "         "@ + text::dec(r.row_collisions)
            + " notes dropped: two onsets wanted the same row — the grid may be too coarse\n"@
    } else {
        s
    };
    if r.unpitched > 0 {
        s + "         "@ + text::dec(r.unpitched)
            + " onsets had no nameable pitch and were dropped\n"@
    } else {
        s
    }
}

/// Instruments, effects and samples, and what was lost.
pub open spec fn tail_text(s: Seq<char>, r: ReportView) -> Seq<char> {
    let s = s + "instr    "@ + text::dec(r.instruments)
        + " synthesised from the envelopes the notes played\n"@;
    let s = if r.effects > 0 || r.slide_targets > 0 {
        let f = s + "fx       "@ + text::dec(r.effects) + " notes carry a recovered effect"@;
        let f = if r.slide_targets > 0 {
            f + ", "@ + text::dec(r.slide_targets)
                + " found only because the pitch moved with no key-on"@
        } else {
            f
        };
        f + "\n"@
    } else {
        s
    };
    let s = if r.dpcm_samples.len() > 0 {
        s + "dpcm     "@ + text::dec(r.dpcm_samples.len()) + " sample(s): ["@ + bytes_text(
            r.dpcm_samples,
            r.dpcm_samples.len(),
        ) + "]\n"@
    } else {
        s
    };
    let s = if r.sweep_frames > 0 {
        s + "lost     hardware sweep active on "@ + text::dec(r.sweep_frames)
            + " frames; viper has no sweep\n"@
    } else {
        s
    };
    let s = if r.hw_env_frames > 0 {
        s + "approx   hardware envelopes on "@ + text::dec(r.hw_env_frames)
            + " frames; those levels were simulated, not read\n"@
    } else {
        s
    };
    let s = if r.dpcm_samples.len() > 0 {
        s + "         the samples themselves are not extracted, so the default bank is used\n"@
    } else {
        s
    };
    s + "lost     instrument identity, phrase boundaries, groove; noise pitch is 4:1\n"@
}

/// The report for a reader.
pub open spec fn summary_text(r: ReportView) -> Seq<char> {
    tail_text(notes_text(head_text(r), r), r)
}

fn put_head(t: &mut Vec<char>, r: &Report)
    requires
        old(t)@.len() == 0,
        r.fit is Some ==> clock::sound_fit(r.fit->0),
    ensures
        final(t)@ == head_text(r@),
{
    text::put_str(t, "source   ");
    text::put_str(t, r.source.as_str());
    text::put_str(t, ", ");
    text::put_dec(t, r.frames as u64);
    text::put_str(t, " frames (");
    put_seconds(t, r.frames);
    text::put_str(t, "s)\n");
    assert(t@ =~= "source   "@ + r@.source + ", "@ + text::dec(r@.frames) + " frames ("@
        + seconds_text(r@.frames) + "s)\n"@);
    match r.loop_frames {
        Some((start, len)) => {
            text::put_str(t, "loop     ");
            text::put_dec(t, len as u64);
            text::put_str(t, " frames, repeating from frame ");
            text::put_dec(t, start as u64);
            text::put_str(t, " (driver RAM state; the start can overshoot)\n");
        },
        None => {
            text::put_str(t, "loop     not detected\n");
        },
    }
    if let Some(f) = r.fit {
        text::put_str(t, "tempo    ");
        text::put_dec(t, r.bpm as u64);
        text::put_str(t, " BPM, ");
        let tempo: u128 = if r.bpm == 0 {
            1
        } else {
            r.bpm as u128
        };
        binary::put_shown(t, 900, tempo, binary::DOUBLE);
        text::put_str(t, " frames/row — ");
        put_fit(t, f, r.bpm);
        text::put_str(t, "\n");
    }
}

fn put_notes(t: &mut Vec<char>, r: &Report)
    ensures
        final(t)@ == notes_text(old(t)@, r@),
{
    text::put_str(t, "rows     ");
    text::put_dec(t, r.rows as u64);
    text::put_str(t, " → ");
    text::put_dec(t, r.phrases_total as u64);
    text::put_str(t, " phrases (");
    text::put_dec(t, r.phrases_unique as u64);
    text::put_str(t, " unique)\n");
    if let Some(p) = r.folded_at {
        text::put_str(t, "         the rows repeat every ");
        text::put_dec(t, p as u64);
        text::put_str(t, ", so the trailing copy was folded away\n");
    }
    text::put_str(t, "notes    ");
    text::put_str(t, "PU1 ");
    put_padded(t, r.notes[0]);
    text::put_str(t, "PU2 ");
    put_padded(t, r.notes[1]);
    text::put_str(t, "TRI ");
    put_padded(t, r.notes[2]);
    text::put_str(t, "NOI ");
    put_padded(t, r.notes[3]);
    text::put_str(t, "DPCM ");
    put_padded(t, r.notes[4]);
    text::put_str(t, "holds ");
    text::put_dec(t, r.holds);
    text::put_str(t, "\n");
    if r.silent_keyons > 0 {
        text::put_str(t, "         ");
        text::put_dec(t, r.silent_keyons);
        text::put_str(t, " key-on");
        text::put_str(
            t,
            if r.silent_keyons == 1 {
                ""
            } else {
                "s"
            },
        );
        text::put_str(t, " suppressed (no volume at onset)\n");
    }
    if r.row_collisions > 0 {
        text::put_str(t, "         ");
        text::put_dec(t, r.row_collisions);
        text::put_str(
            t,
            " notes dropped: two onsets wanted the same row — the grid may be too coarse\n",
        );
    }
    if r.unpitched > 0 {
        text::put_str(t, "         ");
        text::put_dec(t, r.unpitched);
        text::put_str(t, " onsets had no nameable pitch and were dropped\n");
    }
}

fn put_tail(t: &mut Vec<char>, r: &Report)
    ensures
        final(t)@ == tail_text(old(t)@, r@),
{
    text::put_str(t, "instr    ");
    text::put_dec(t, r.instruments as u64);
    text::put_str(t, " synthesised from the envelopes the notes played\n");
    if r.effects > 0 || r.slide_targets > 0 {
        text::put_str(t, "fx       ");
        text::put_dec(t, r.effects as u64);
        text::put_str(t, " notes carry a recovered effect");
        if r.slide_targets > 0 {
            text::put_str(t, ", ");
            text::put_dec(t, r.slide_targets);
            text::put_str(t, " found only because the pitch moved with no key-on");
        }
        text::put_str(t, "\n");
    }
    if r.dpcm_samples.len() > 0 {
        text::put_str(t, "dpcm     ");
        text::put_dec(t, r.dpcm_samples.len() as u64);
        text::put_str(t, " sample(s): [");
        put_bytes(t, &r.dpcm_samples);
        text::put_str(t, "]\n");
    }
    if r.sweep_frames > 0 {
        text::put_str(t, "lost     hardware sweep active on ");
        text::put_dec(t, r.sweep_frames as u64);
        text::put_str(t, " frames; viper has no sweep\n");
    }
    if r.hw_env_frames > 0 {
        text::put_str(t, "approx   hardware envelopes on ");
        text::put_dec(t, r.hw_env_frames as u64);
        text::put_str(t, " frames; those levels were simulated, not read\n");
    }
    if r.dpcm_samples.len() > 0 {
        text::put_str(
            t,
            "         the samples themselves are not extracted, so the default bank is used\n",
        );
    }
    text::put_str(
        t,
        "lost     instrument identity, phrase boundaries, groove; noise pitch is 4:1\n",
    );
}

impl Report {
    /// The report for a reader.
    pub fn summary(&self) -> (r: String)
        requires
            self.fit is Some ==> clock::sound_fit(self.fit->0),
        ensures
            r@ == summary_text(self@),
    {
        let mut t: Vec<char> = Vec::new();
        put_head(&mut t, self);
        put_notes(&mut t, self);
        put_tail(&mut t, self);
        text::string_of(t.as_slice())
    }
}

} // verus!
