//! A frame table turned into a song.

use vstd::prelude::*;

use crate::rip::clock;
use crate::rip::clock::{Grid, GridView};
use crate::rip::envelope;
use crate::rip::envelope::{EnvView, NoteEnv};
use crate::rip::report;
use crate::rip::report::{Report, ReportView};
use crate::rip::trace;
use crate::rip::trace::FrameTrace;
use crate::rip::transcribe;
use crate::rip::transcribe::{DraftView, Placed, PlacedView, Score, ScoreView};
use crate::song;
use crate::song::{Cell, Instrument, Song, SongView, CHANNELS, INSTRUMENTS};

verus! {

/// What the caller knows beforehand.
#[derive(Clone, Copy, Debug)]
pub struct RipOptions {
    pub bpm: Option<u16>,
}

/// Why a table gives no song.
#[derive(Clone, Copy, Debug, PartialEq, Eq, Structural)]
pub enum RipError {
    /// The table has no frames.
    Empty,
    /// No row begins inside the table.
    NoRows,
    /// More different phrases than a song file holds.
    TooManyPhrases(usize),
}

pub open spec fn error_text(e: RipError) -> Seq<char> {
    match e {
        RipError::Empty => "rip: nothing to transcribe"@,
        RipError::NoRows => "rip: no rows — the trace has no audible note starts"@,
        RipError::TooManyPhrases(n) => crate::text::dec(n as nat)
            + " unique phrases; the .vip format holds 256"@,
    }
}

impl RipError {
    pub fn message(&self) -> (r: String)
        ensures
            r@ == error_text(*self),
    {
        let mut t: Vec<char> = Vec::new();
        match self {
            RipError::Empty => crate::text::put_str(&mut t, "rip: nothing to transcribe"),
            RipError::NoRows => crate::text::put_str(
                &mut t,
                "rip: no rows — the trace has no audible note starts",
            ),
            RipError::TooManyPhrases(n) => {
                crate::text::put_dec(&mut t, *n as u64);
                crate::text::put_str(&mut t, " unique phrases; the .vip format holds 256");
            },
        }
        assert(t@ =~= error_text(*self));
        crate::text::string_of(t.as_slice())
    }
}

// ---------------------------------------------------------------- instruments

/// The envelopes of placed notes.
pub open spec fn envs(p: Seq<PlacedView>) -> Seq<EnvView> {
    p.map_values(|x: PlacedView| x.env)
}

/// The level an instrument peaks at, out of 15.
pub open spec fn peak_level(volume: i32) -> int {
    let p = (15 * volume + 500) / 1000;
    if p < 1 {
        1
    } else {
        p
    }
}

/// The volume column that plays a level on an instrument.
pub open spec fn column(level: u8, volume: i32) -> u8 {
    let p = peak_level(volume);
    let v = (16 * level + p - 1) / p;
    if v < 1 {
        1
    } else if v > 15 {
        15
    } else {
        v as u8
    }
}

fn find_column(level: u8, volume: i32) -> (r: u8)
    ensures
        r == column(level, volume),
{
    let raw: i64 = (15 * volume as i64 + 500) / 1000;
    assert(volume >= 0 ==> raw == (15 * volume + 500) / 1000);
    let p: u64 = if volume <= 0 || raw < 1 {
        1
    } else {
        raw as u64
    };
    assert(p == peak_level(volume));
    let v: u64 = (16 * level as u64 + p - 1) / p;
    if v < 1 {
        1
    } else if v > 15 {
        15
    } else {
        v as u8
    }
}

/// One note's instrument and volume, written where its row still stands and
/// holds a note.
pub open spec fn voiced(
    rows: Seq<Seq<Cell>>,
    p: PlacedView,
    at: usize,
    instruments: Seq<Instrument>,
) -> Seq<Seq<Cell>> {
    let r = p.row as int;
    let c = p.env.ch as int;
    if r < rows.len() && rows[r][c].note is Some {
        song::put_cell(
            rows,
            r,
            c,
            Cell {
                instr: at as u8,
                vol: column(
                    if p.env.levels.len() > 0 {
                        p.env.levels[0]
                    } else {
                        0
                    },
                    instruments[at as int].volume,
                ),
                ..rows[r][c]
            },
        )
    } else {
        rows
    }
}

/// The first `k` notes.
pub open spec fn all_voiced(
    rows: Seq<Seq<Cell>>,
    p: Seq<PlacedView>,
    at: Seq<usize>,
    instruments: Seq<Instrument>,
    k: nat,
) -> Seq<Seq<Cell>>
    decreases k,
{
    if k == 0 {
        rows
    } else {
        voiced(
            all_voiced(rows, p, at, instruments, (k - 1) as nat),
            p[k - 1],
            at[k - 1],
            instruments,
        )
    }
}

fn copy_levels(v: &Vec<u8>) -> (r: Vec<u8>)
    ensures
        r@ == v@,
{
    let mut out: Vec<u8> = Vec::new();
    for i in 0..v.len()
        invariant
            out@ == v@.take(i as int),
    {
        out.push(v[i]);
    }
    assert(out@ =~= v@);
    out
}

fn collect_envs(p: &Vec<Placed>) -> (r: Vec<NoteEnv>)
    ensures
        envelope::env_views(r@) == envs(transcribe::placed_views(p@)),
        r@.len() == p@.len(),
{
    let mut out: Vec<NoteEnv> = Vec::new();
    for i in 0..p.len()
        invariant
            out@.len() == i,
            forall|j: int| 0 <= j < i ==> (#[trigger] out@[j])@ == p@[j].env@,
    {
        let n: NoteEnv = NoteEnv {
            ch: p[i].env.ch,
            duty: p[i].env.duty,
            levels: copy_levels(&p[i].env.levels),
        };
        assert(n@ =~= p@[i as int].env@);
        out.push(n);
    }
    assert(envelope::env_views(out@) =~= envs(transcribe::placed_views(p@)));
    out
}

fn voice_all(
    rows: &mut Vec<[Cell; CHANNELS]>,
    p: &Vec<Placed>,
    at: &Vec<usize>,
    instruments: &Vec<Instrument>,
)
    requires
        at@.len() == p@.len(),
        instruments@.len() <= INSTRUMENTS,
        forall|k: int| 0 <= k < at@.len() ==> (#[trigger] at@[k]) < instruments@.len(),
        forall|k: int| 0 <= k < p@.len() ==> (#[trigger] p@[k]).env.ch < CHANNELS,
    ensures
        song::row_views(final(rows)@) == all_voiced(
            song::row_views(old(rows)@),
            transcribe::placed_views(p@),
            at@,
            instruments@,
            p@.len(),
        ),
        final(rows)@.len() == old(rows)@.len(),
{
    let ghost base = song::row_views(rows@);
    let ghost pv = transcribe::placed_views(p@);
    for k in 0..p.len()
        invariant
            pv == transcribe::placed_views(p@),
            at@.len() == p@.len(),
            instruments@.len() <= INSTRUMENTS,
            forall|k: int| 0 <= k < at@.len() ==> (#[trigger] at@[k]) < instruments@.len(),
            forall|k: int| 0 <= k < p@.len() ==> (#[trigger] p@[k]).env.ch < CHANNELS,
            song::row_views(rows@) == all_voiced(base, pv, at@, instruments@, k as nat),
            rows@.len() == old(rows)@.len(),
    {
        assert(pv[k as int] == p@[k as int]@);
        let r: usize = p[k].row;
        let c: usize = p[k].env.ch;
        assert(song::row_views(rows@).len() == rows@.len());
        if r < rows.len() {
            proof {
                transcribe::lemma_cell(rows@, r as int, c as int);
            }
            let x: Cell = rows[r][c];
            if x.note.is_some() {
                let i: usize = at[k];
                let level: u8 = if p[k].env.levels.len() > 0 {
                    p[k].env.levels[0]
                } else {
                    0
                };
                let vol: u8 = find_column(level, instruments[i].volume);
                transcribe::set_cell(
                    rows,
                    r,
                    c,
                    Cell { note: x.note, instr: i as u8, vol, fx: x.fx, hold: x.hold },
                );
            }
        }
    }
}

// ---------------------------------------------------------------- the song

/// A default instrument table with its first entries replaced.
pub open spec fn table(v: Seq<Instrument>) -> Seq<Instrument> {
    Seq::new(
        INSTRUMENTS as nat,
        |i: int|
            if i < v.len() {
                v[i]
            } else {
                song::default_instrument()
            },
    )
}

pub open spec fn song_of(
    bpm: u16,
    phrases: Seq<Seq<Seq<Cell>>>,
    order: Seq<usize>,
    instruments: Seq<Instrument>,
) -> SongView {
    SongView {
        bpm,
        phrases,
        order,
        loop_pos: 0,
        current_phrase: if order.len() > 0 {
            order[0]
        } else {
            0
        },
        instruments: table(instruments),
        ..song::default_song()
    }
}

pub open spec fn report_of(
    t: Seq<FrameTrace>,
    g: GridView,
    s: ScoreView,
    instruments: nat,
    total: nat,
    unique: nat,
) -> ReportView {
    ReportView {
        source: Seq::empty(),
        frames: t.len(),
        loop_frames: None,
        bpm: g.bpm,
        fit: Some(g.fit),
        rows: s.rows.len(),
        phrases_total: total,
        phrases_unique: unique,
        instruments,
        effects: report::moving(s.placed, s.placed.len()),
        slide_targets: s.slide_targets,
        notes: Seq::new(
            CHANNELS as nat,
            |c: int| report::notes_on(s.placed, c, s.placed.len()) as usize,
        ),
        silent_keyons: report::silent_keyons(t, t.len()),
        unpitched: s.unpitched,
        holds: s.holds,
        row_collisions: s.collisions,
        folded_at: s.folded,
        sweep_frames: report::sweep_frames(t, t.len()),
        hw_env_frames: report::shaped_frames(t, t.len()),
        dpcm_samples: s.slots,
    }
}

/// The song of a frame table, what was found in it, and its grid.
pub open spec fn ripped(t: Seq<FrameTrace>, bpm: Option<u16>) -> Result<
    (SongView, ReportView, GridView),
    RipError,
> {
    let g = clock::grid_of(t, bpm);
    if t.len() == 0 {
        Err(RipError::Empty)
    } else if g.starts.len() == 0 {
        Err(RipError::NoRows)
    } else {
        let s = transcribe::score_of(t, g.starts);
        let (instruments, at) = envelope::synthesised(envs(s.placed));
        let rows = all_voiced(s.rows, s.placed, at, instruments, s.placed.len());
        let (phrases, order) = song::shared_rows(rows, song::phrase_count(rows.len()));
        if phrases.len() > 256 {
            Err(RipError::TooManyPhrases(phrases.len() as usize))
        } else {
            Ok(
                (
                    song_of(g.bpm, phrases, order, instruments),
                    report_of(t, g, s, instruments.len(), order.len(), phrases.len()),
                    g,
                ),
            )
        }
    }
}

fn make_song(
    bpm: u16,
    phrases: Vec<song::Phrase>,
    order: Vec<usize>,
    instruments: &Vec<Instrument>,
) -> (r: Song)
    requires
        instruments@.len() <= INSTRUMENTS,
    ensures
        r@ == song_of(bpm, song::grids(phrases@), order@, instruments@),
{
    let mut s: Song = Song::default();
    s.bpm = bpm;
    s.current_phrase = if order.len() > 0 {
        order[0]
    } else {
        0
    };
    s.phrases = phrases;
    s.order = order;
    s.loop_pos = 0;
    let ghost base = s@;
    let mut all: [Instrument; INSTRUMENTS] = s.instruments;
    for i in 0..instruments.len()
        invariant
            instruments@.len() <= INSTRUMENTS,
            forall|j: int| 0 <= j < i ==> #[trigger] all@[j] == instruments@[j],
            forall|j: int|
                i <= j < INSTRUMENTS ==> #[trigger] all@[j] == song::default_instrument(),
    {
        all[i] = instruments[i];
    }
    assert(all@ =~= table(instruments@));
    s.instruments = all;
    assert(s@ =~= song_of(bpm, song::grids(phrases@), order@, instruments@));
    s
}

fn count_channels(p: &Vec<Placed>) -> (r: [usize; CHANNELS])
    ensures
        r@ == Seq::new(
            CHANNELS as nat,
            |c: int|
                report::notes_on(transcribe::placed_views(p@), c, p@.len()) as usize,
        ),
{
    let r: [usize; CHANNELS] = [
        report::count_notes(p, 0),
        report::count_notes(p, 1),
        report::count_notes(p, 2),
        report::count_notes(p, 3),
        report::count_notes(p, 4),
    ];
    assert(r@ =~= Seq::new(
        CHANNELS as nat,
        |c: int| report::notes_on(transcribe::placed_views(p@), c, p@.len()) as usize,
    ));
    r
}

fn make_report(
    t: &[FrameTrace],
    g: &Grid,
    s: Score,
    rows: usize,
    instruments: usize,
    total: usize,
    unique: usize,
) -> (r: Report)
    requires
        trace::in_order(t@),
        rows == s@.rows.len(),
    ensures
        r@ == report_of(t@, g@, s@, instruments as nat, total as nat, unique as nat),
        r.fit == Some(g.fit),
{
    assert(transcribe::placed_views(s.placed@).len() == s.placed@.len());
    let r: Report = Report {
        source: String::new(),
        frames: t.len(),
        loop_frames: None,
        bpm: g.bpm,
        fit: Some(g.fit),
        rows,
        phrases_total: total,
        phrases_unique: unique,
        instruments,
        effects: report::count_moving(&s.placed),
        slide_targets: s.slide_targets,
        notes: count_channels(&s.placed),
        silent_keyons: report::count_silent(t),
        unpitched: s.unpitched,
        holds: s.holds,
        row_collisions: s.collisions,
        folded_at: s.folded,
        sweep_frames: report::count_sweeps(t),
        hw_env_frames: report::count_shaped(t),
        dpcm_samples: s.slots,
    };
    assert(r@ =~= report_of(t@, g@, s@, instruments as nat, total as nat, unique as nat));
    r
}

pub proof fn lemma_climbing_len(s: Seq<u32>)
    requires
        clock::climbing(s),
    ensures
        s.len() <= 0x1_0000_0000,
{
    if s.len() > 0 {
        lemma_climbing_at(s, s.len() - 1);
    }
}

proof fn lemma_climbing_at(s: Seq<u32>, i: int)
    requires
        clock::climbing(s),
        0 <= i < s.len(),
    ensures
        s[i] >= i,
    decreases i,
{
    if i > 0 {
        lemma_climbing_at(s, i - 1);
        assert(s[i - 1] < s[i]);
    }
}

/// Turns a frame table into a song.
pub fn rip(t: &[FrameTrace], opts: &RipOptions) -> (r: Result<(Song, Report, Grid), RipError>)
    requires
        trace::in_order(t@),
    ensures
        match r {
            Ok((s, p, g)) => ripped(t@, opts.bpm) == Ok::<
                (SongView, ReportView, GridView),
                RipError,
            >((s@, p@, g@)),
            Err(e) => ripped(t@, opts.bpm) == Err::<(SongView, ReportView, GridView), RipError>(e),
        },
        r is Ok ==> r->Ok_0.1.fit is Some && clock::sound_fit(r->Ok_0.1.fit->0),
{
    if t.len() == 0 {
        return Err(RipError::Empty);
    }
    let grid: Grid = clock::fit_grid(t, opts.bpm);
    if grid.starts.len() == 0 {
        return Err(RipError::NoRows);
    }
    proof {
        lemma_climbing_len(grid.starts@);
    }
    let score: Score = transcribe::transcribe(t, &grid.starts);
    let ghost s = score@;
    assert(transcribe::placed_views(score.placed@).len() == score.placed@.len());
    let count: usize = score.rows.len();
    assert(song::row_views(score.rows@).len() == score.rows@.len());
    let notes: Vec<NoteEnv> = collect_envs(&score.placed);
    let (instruments, at): (Vec<Instrument>, Vec<usize>) = envelope::synth_instruments(&notes);
    let mut rows: Vec<[Cell; CHANNELS]> = Vec::new();
    for i in 0..count
        invariant
            count == score.rows@.len(),
            rows@ == score.rows@.take(i as int),
    {
        rows.push(score.rows[i]);
    }
    assert(rows@ =~= score.rows@);
    voice_all(&mut rows, &score.placed, &at, &instruments);
    assert(song::row_views(rows@).len() == rows@.len());
    match song::phrases_from_rows(&rows) {
        Err(e) => Err(RipError::TooManyPhrases(e.unique)),
        Ok((phrases, order)) => {
            let total: usize = order.len();
            let unique: usize = phrases.len();
            assert(song::grids(phrases@).len() == unique);
            let song: Song = make_song(grid.bpm, phrases, order, &instruments);
            let rep: Report = make_report(
                t,
                &grid,
                score,
                count,
                instruments.len(),
                total,
                unique,
            );
            Ok((song, rep, grid))
        },
    }
}

// ---------------------------------------------------------------- what is counted

/// How many of the first `c` channels start a note that is heard.
pub open spec fn heard_on(f: FrameTrace, c: nat) -> nat
    decreases c,
{
    if c == 0 {
        0
    } else {
        heard_on(f, (c - 1) as nat) + if trace::strikes(f, c - 1) {
            1nat
        } else {
            0
        }
    }
}

/// How many notes that are heard the first `k` entries start.
pub open spec fn heard(t: Seq<FrameTrace>, k: nat) -> nat
    decreases k,
{
    if k == 0 {
        0
    } else {
        heard(t, (k - 1) as nat) + heard_on(t[k - 1], CHANNELS as nat)
    }
}

/// How many of the first `c` channels start a note.
pub open spec fn keyed_on(f: FrameTrace, c: nat) -> nat
    decreases c,
{
    if c == 0 {
        0
    } else {
        keyed_on(f, (c - 1) as nat) + if f.ch@[c - 1].keyed {
            1nat
        } else {
            0
        }
    }
}

/// How many notes the first `k` entries start, heard or not.
pub open spec fn keyed(t: Seq<FrameTrace>, k: nat) -> nat
    decreases k,
{
    if k == 0 {
        0
    } else {
        keyed(t, (k - 1) as nat) + keyed_on(t[k - 1], CHANNELS as nat)
    }
}

/// The notes of all channels.
pub open spec fn all_notes(r: ReportView) -> int {
    r.notes[0] + r.notes[1] + r.notes[2] + r.notes[3] + r.notes[4]
}

proof fn lemma_keyed(t: Seq<FrameTrace>, k: nat)
    requires
        k <= t.len(),
    ensures
        keyed(t, k) == heard(t, k) + report::silent_keyons(t, k),
    decreases k,
{
    if k > 0 {
        lemma_keyed(t, (k - 1) as nat);
        lemma_keyed_on(t[k - 1], CHANNELS as nat);
    }
}

proof fn lemma_keyed_on(f: FrameTrace, c: nat)
    requires
        c <= CHANNELS,
    ensures
        keyed_on(f, c) == heard_on(f, c) + report::silent_on(f, c),
    decreases c,
{
    if c > 0 {
        lemma_keyed_on(f, (c - 1) as nat);
    }
}

/// Notes on rows, without a pitch, or without a row.
pub open spec fn accounted(d: DraftView) -> nat {
    d.placed.len() + d.unpitched + d.collisions
}

pub open spec fn on_channels(p: Seq<PlacedView>) -> bool {
    forall|i: int| 0 <= i < p.len() ==> (#[trigger] p[i]).env.ch < CHANNELS
}

proof fn lemma_frame(d: DraftView, t: Seq<FrameTrace>, starts: Seq<u32>, i: int, c: nat)
    requires
        c <= CHANNELS,
        on_channels(d.placed),
    ensures
        accounted(transcribe::frame_strikes(d, t, starts, i, c)) == accounted(d) + heard_on(t[i], c),
        on_channels(transcribe::frame_strikes(d, t, starts, i, c).placed),
    decreases c,
{
    if c > 0 {
        lemma_frame(d, t, starts, i, (c - 1) as nat);
        let before = transcribe::frame_strikes(d, t, starts, i, (c - 1) as nat);
        let after = transcribe::frame_strikes(d, t, starts, i, c);
        assert forall|j: int| 0 <= j < after.placed.len() implies (
        #[trigger] after.placed[j]).env.ch < CHANNELS by {
            if j < before.placed.len() {
                assert(after.placed[j] == before.placed[j]);
            }
        }
    }
}

pub proof fn lemma_struck(t: Seq<FrameTrace>, starts: Seq<u32>, k: nat)
    requires
        k <= t.len(),
    ensures
        accounted(transcribe::struck(t, starts, k)) == heard(t, k),
        on_channels(transcribe::struck(t, starts, k).placed),
    decreases k,
{
    if k > 0 {
        lemma_struck(t, starts, (k - 1) as nat);
        lemma_frame(
            transcribe::struck(t, starts, (k - 1) as nat),
            t,
            starts,
            k - 1,
            CHANNELS as nat,
        );
    }
}

proof fn lemma_slides(d: DraftView, t: Seq<FrameTrace>, c: int, starts: Seq<u32>, k: nat)
    requires
        0 <= c < CHANNELS,
        on_channels(d.placed),
    ensures
        transcribe::slides_on(d, t, c, starts, k).placed.len() >= d.placed.len(),
        on_channels(transcribe::slides_on(d, t, c, starts, k).placed),
    decreases k,
{
    if k > 0 {
        lemma_slides(d, t, c, starts, (k - 1) as nat);
        let before = transcribe::slides_on(d, t, c, starts, (k - 1) as nat);
        let after = transcribe::slides_on(d, t, c, starts, k);
        assert forall|j: int| 0 <= j < after.placed.len() implies (
        #[trigger] after.placed[j]).env.ch < CHANNELS by {
            if j < before.placed.len() {
                assert(after.placed[j] == before.placed[j]);
            }
        }
    }
}

pub proof fn lemma_slid(d: DraftView, t: Seq<FrameTrace>, starts: Seq<u32>, c: nat)
    requires
        c <= CHANNELS,
        on_channels(d.placed),
    ensures
        transcribe::slid(d, t, starts, c).placed.len() >= d.placed.len(),
        transcribe::slid(d, t, starts, c).unpitched == d.unpitched,
        transcribe::slid(d, t, starts, c).collisions == d.collisions,
        on_channels(transcribe::slid(d, t, starts, c).placed),
    decreases c,
{
    if c > 0 {
        lemma_slid(d, t, starts, (c - 1) as nat);
        lemma_slides(
            transcribe::slid(d, t, starts, (c - 1) as nat),
            t,
            c - 1,
            starts,
            starts.len(),
        );
    }
}

/// Every note is on one of the channels.
proof fn lemma_channels(p: Seq<PlacedView>, k: nat)
    requires
        k <= p.len(),
        on_channels(p),
    ensures
        report::notes_on(p, 0, k) + report::notes_on(p, 1, k) + report::notes_on(p, 2, k)
            + report::notes_on(p, 3, k) + report::notes_on(p, 4, k) == k,
    decreases k,
{
    if k > 0 {
        lemma_channels(p, (k - 1) as nat);
        assert(p[k - 1].env.ch < CHANNELS);
    }
}

/// Everything is counted rather than dropped: each note that the trace starts
/// is written, has no pitch, finds its row taken, or has no volume, and what
/// is written besides are the targets of slides.
pub proof fn law_every_note_is_counted(t: Seq<FrameTrace>, bpm: Option<u16>)
    requires
        ripped(t, bpm) is Ok,
        transcribe::score_of(t, clock::grid_of(t, bpm).starts).placed.len() <= usize::MAX,
    ensures
        ({
            let r = (ripped(t, bpm)->Ok_0).1;
            &&& all_notes(r) + r.unpitched + r.row_collisions == heard(t, t.len())
                + r.slide_targets
            &&& heard(t, t.len()) + r.silent_keyons == keyed(t, t.len())
        }),
{
    let starts = clock::grid_of(t, bpm).starts;
    let s = transcribe::score_of(t, starts);
    lemma_struck(t, starts, t.len());
    let d = transcribe::struck(t, starts, t.len());
    lemma_slid(d, t, starts, trace::NOI as nat);
    lemma_channels(s.placed, s.placed.len());
    lemma_keyed(t, t.len());
}

} // verus!
