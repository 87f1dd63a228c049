//! The generators proper: each fills whole channels of a phrase and leaves
//! the other channels as they were.

use vstd::prelude::*;

use crate::gen;
use crate::gen::chord;
use crate::gen::chord::{Chord, ChordView};
use crate::gen::odds;
use crate::gen::{Channel, Mode, Rng};
use crate::song;
use crate::song::{Cell, Phrase, Song, SongView, CHANNELS, STEPS_PER_PHRASE};
use crate::text;

verus! {

// ---------------------------------------------------------------- columns

pub open spec fn hit_cell(note: u8, instr: u8, vol: u8) -> Cell {
    Cell { note: Some(note), instr, vol, fx: None, hold: false }
}

fn hit(note: u8, instr: u8, vol: u8) -> (c: Cell)
    ensures
        c == hit_cell(note, instr, vol),
{
    Cell { note: Some(note), instr, vol, fx: None, hold: false }
}

/// The grid with one channel replaced.
pub open spec fn with_channel(g: Seq<Seq<Cell>>, ch: int, col: Seq<Cell>) -> Seq<Seq<Cell>> {
    Seq::new(STEPS_PER_PHRASE as nat, |s: int| g[s].update(ch, col[s]))
}

pub open spec fn empty_column() -> Seq<Cell> {
    Seq::new(STEPS_PER_PHRASE as nat, |s: int| song::empty_cell())
}

/// The song with its current phrase replaced.
pub open spec fn with_current(s: SongView, g: Seq<Seq<Cell>>) -> SongView {
    SongView { phrases: s.phrases.update(s.current_phrase as int, g), ..s }
}

pub open spec fn current(s: SongView) -> Seq<Seq<Cell>> {
    s.phrases[s.current_phrase as int]
}

/// Filling a channel leaves every other channel as it was.
pub proof fn law_other_channels_unchanged(
    g: Seq<Seq<Cell>>,
    ch: int,
    col: Seq<Cell>,
    s: int,
    c: int,
)
    requires
        0 <= s < STEPS_PER_PHRASE,
        0 <= c < CHANNELS,
        0 <= ch < CHANNELS,
        c != ch,
        g[s].len() == CHANNELS,
    ensures
        with_channel(g, ch, col)[s][c] == g[s][c],
{
}

pub fn put_channel(p: &mut Phrase, ch: usize, col: &[Cell; STEPS_PER_PHRASE])
    requires
        ch < CHANNELS,
    ensures
        final(p)@ == with_channel(old(p)@, ch as int, col@),
{
    let ghost start = p@;
    for s in 0..STEPS_PER_PHRASE
        invariant
            ch < CHANNELS,
            start == old(p)@,
            forall|k: int|
                0 <= k < STEPS_PER_PHRASE ==> #[trigger] p@[k] == (if k < s {
                    start[k].update(ch as int, col@[k])
                } else {
                    start[k]
                }),
    {
        p.put(s, ch, col[s]);
        assert forall|k: int| 0 <= k < STEPS_PER_PHRASE implies #[trigger] p@[k] == (if k < s + 1 {
            start[k].update(ch as int, col@[k])
        } else {
            start[k]
        }) by {
            assert(start[k] == start[k]);
        }
    }
    assert(p@ =~= with_channel(start, ch as int, col@));
}

fn blank_column() -> (r: [Cell; STEPS_PER_PHRASE])
    ensures
        r@ == empty_column(),
{
    let c: Cell = Cell::default();
    let r: [Cell; STEPS_PER_PHRASE] = [c; STEPS_PER_PHRASE];
    assert(r@ =~= empty_column());
    r
}

fn put_current(song: &mut Song, ch: usize, col: &[Cell; STEPS_PER_PHRASE])
    requires
        ch < CHANNELS,
        old(song).current_phrase < old(song).phrases@.len(),
    ensures
        final(song)@ == with_current(
            old(song)@,
            with_channel(current(old(song)@), ch as int, col@),
        ),
        final(song).phrases@.len() == old(song).phrases@.len(),
{
    let cur: usize = song.current_phrase;
    let mut p: Phrase = song.phrases[cur];
    assert(current(song@) == p@);
    let ghost before = song@.phrases;
    put_channel(&mut p, ch, col);
    song.phrases[cur] = p;
    assert(song@.phrases =~= before.update(cur as int, p@));
}

/// The note and instrument a channel is given where none is named.
pub open spec fn default_hit(ch: Channel) -> (u8, u8) {
    match ch {
        Channel::Pu1 => (69, 0),
        Channel::Pu2 => (64, 1),
        Channel::Tri => (45, 2),
        Channel::Noi => (60, 3),
        Channel::Dpcm => (60, 0),
    }
}

pub fn default_note_instr(ch: Channel) -> (r: (u8, u8))
    ensures
        r == default_hit(ch),
{
    match ch {
        Channel::Pu1 => (69, 0),
        Channel::Pu2 => (64, 1),
        Channel::Tri => (45, 2),
        Channel::Noi => (60, 3),
        Channel::Dpcm => (60, 0),
    }
}

/// The octaves a channel is played in.
pub open spec fn octaves_of(ch: Channel) -> (i32, i32) {
    match ch {
        Channel::Pu1 => (4, 5),
        Channel::Pu2 => (3, 4),
        Channel::Tri => (2, 3),
        Channel::Noi => (3, 4),
        Channel::Dpcm => (4, 4),
    }
}

pub fn default_octaves(ch: Channel) -> (r: (i32, i32))
    ensures
        r == octaves_of(ch),
        0 <= r.0 <= r.1 <= 5,
{
    match ch {
        Channel::Pu1 => (4, 5),
        Channel::Pu2 => (3, 4),
        Channel::Tri => (2, 3),
        Channel::Noi => (3, 4),
        Channel::Dpcm => (4, 4),
    }
}

// ---------------------------------------------------------------- four on the floor

/// Kick on every beat, snare between, hats on the off-steps.
pub open spec fn four_column() -> Seq<Cell> {
    Seq::new(
        STEPS_PER_PHRASE as nat,
        |s: int|
            hit_cell(
                if s % 4 == 0 {
                    36
                } else if s % 4 == 2 {
                    50
                } else {
                    60
                },
                3,
                15,
            ),
    )
}

/// Four-on-the-floor drums on the noise channel.
pub fn four_on_floor(song: &mut Song)
    requires
        old(song).current_phrase < old(song).phrases@.len(),
    ensures
        final(song)@ == with_current(
            old(song)@,
            with_channel(current(old(song)@), 3, four_column()),
        ),
{
    let mut col: [Cell; STEPS_PER_PHRASE] = blank_column();
    for s in 0..STEPS_PER_PHRASE
        invariant
            forall|k: int| 0 <= k < s ==> #[trigger] col@[k] == four_column()[k],
    {
        let note: u8 = if s % 4 == 0 {
            36
        } else if s % 4 == 2 {
            50
        } else {
            60
        };
        col[s] = hit(note, 3, 15);
    }
    assert(col@ =~= four_column());
    put_current(song, 3, &col);
}

// ---------------------------------------------------------------- Euclidean fill

pub open spec fn euclid_column(k: nat, n: nat, offset: nat, note: u8, instr: u8) -> Seq<Cell> {
    let width: nat = if n < STEPS_PER_PHRASE {
        n
    } else {
        STEPS_PER_PHRASE as nat
    };
    let mask = gen::euclid_pattern(k, width, offset);
    Seq::new(
        STEPS_PER_PHRASE as nat,
        |s: int|
            if s < mask.len() && mask[s] {
                hit_cell(note, instr, 15)
            } else {
                song::empty_cell()
            },
    )
}

/// Fills a channel with a Euclidean pattern over at most a phrase.
pub fn euclid(song: &mut Song, ch: Channel, k: usize, n: usize, offset: usize, note: u8, instr: u8)
    requires
        old(song).current_phrase < old(song).phrases@.len(),
    ensures
        final(song)@ == with_current(
            old(song)@,
            with_channel(
                current(old(song)@),
                gen::channel_index(ch) as int,
                euclid_column(k as nat, n as nat, offset as nat, note, instr),
            ),
        ),
{
    let width: usize = if n < STEPS_PER_PHRASE {
        n
    } else {
        STEPS_PER_PHRASE
    };
    let mask: Vec<bool> = gen::euclid_mask(k, width, offset);
    let mut col: [Cell; STEPS_PER_PHRASE] = blank_column();
    let ghost want = euclid_column(k as nat, n as nat, offset as nat, note, instr);
    for s in 0..STEPS_PER_PHRASE
        invariant
            mask@ == gen::euclid_pattern(k as nat, width as nat, offset as nat),
            width == (if n < STEPS_PER_PHRASE {
                n
            } else {
                STEPS_PER_PHRASE
            }),
            want == euclid_column(k as nat, n as nat, offset as nat, note, instr),
            forall|j: int| 0 <= j < s ==> #[trigger] col@[j] == want[j],
            forall|j: int|
                s <= j < STEPS_PER_PHRASE ==> #[trigger] col@[j] == song::empty_cell(),
    {
        if s < mask.len() && mask[s] {
            col[s] = hit(note, instr, 15);
        }
    }
    assert(col@ =~= want);
    put_current(song, ch.index(), &col);
}

// ---------------------------------------------------------------- random notes in a scale

/// The first `k` steps of a random melody and the generator after them. Each
/// step is a hit with the given odds; its pitch is a random degree in a
/// random octave, where MIDI has such a note.
pub open spec fn scale_steps(
    k: nat,
    seed: u64,
    key: u8,
    mode: Mode,
    odds: u64,
    low: i32,
    span: u32,
    instr: u8,
) -> (Seq<Cell>, u64)
    decreases k,
{
    if k == 0 {
        (Seq::empty(), gen::rng_seed(seed))
    } else {
        let (cells, x) = scale_steps((k - 1) as nat, seed, key, mode, odds, low, span, instr);
        let x1 = gen::rng_next(x);
        if !odds::falls_below(gen::rng_value(x1), odds) {
            (cells.push(song::empty_cell()), x1)
        } else {
            let steps = gen::mode_steps(mode);
            let x2 = gen::rng_next(x1);
            let x3 = gen::rng_next(x2);
            let deg = steps[gen::rng_range(x2, 0, steps.len() as u32) as int];
            let oct = low + gen::rng_range(x3, 0, span);
            let midi = 12 * (oct + 1) + key + deg;
            (
                cells.push(
                    if 0 <= midi <= 127 {
                        hit_cell(midi as u8, instr, 15)
                    } else {
                        song::empty_cell()
                    },
                ),
                x3,
            )
        }
    }
}

pub open spec fn octave_span(low: i32, high: i32) -> u32 {
    if high < low {
        1
    } else {
        (high - low + 1) as u32
    }
}

/// Fills a channel with uniformly random notes from a mode, `density`
/// thousandths of the steps being hits.
pub fn random_in_scale(
    song: &mut Song,
    ch: Channel,
    key: u8,
    mode: Mode,
    density: i32,
    octave_low: i32,
    octave_high: i32,
    instr: u8,
    seed: u64,
)
    requires
        old(song).current_phrase < old(song).phrases@.len(),
        octave_high - octave_low < i32::MAX,
    ensures
        final(song)@ == with_current(
            old(song)@,
            with_channel(
                current(old(song)@),
                gen::channel_index(ch) as int,
                scale_steps(
                    STEPS_PER_PHRASE as nat,
                    seed,
                    key,
                    mode,
                    odds::share_threshold(density as int) as u64,
                    octave_low,
                    octave_span(octave_low, octave_high),
                    instr,
                ).0,
            ),
        ),
{
    let mut rng: Rng = Rng::new(seed);
    let p: u64 = odds::share_odds(density);
    let steps: &[u8] = mode.intervals();
    let span: u32 = if octave_high < octave_low {
        1
    } else {
        (octave_high as i64 - octave_low as i64 + 1) as u32
    };
    let mut col: [Cell; STEPS_PER_PHRASE] = blank_column();
    for s in 0..STEPS_PER_PHRASE
        invariant
            steps@ == gen::mode_steps(mode),
            5 <= steps@.len() <= 7,
            forall|i: int| 0 <= i < steps@.len() ==> #[trigger] steps@[i] <= 11,
            span == octave_span(octave_low, octave_high),
            0 < span <= i32::MAX,
            forall|j: int|
                s <= j < STEPS_PER_PHRASE ==> #[trigger] col@[j] == song::empty_cell(),
            (col@.take(s as int), rng.state) == scale_steps(
                s as nat,
                seed,
                key,
                mode,
                p,
                octave_low,
                span,
                instr,
            ),
    {
        let ghost before = col@;
        if rng.chance(p) {
            let d: u32 = rng.range(0, steps.len() as u32);
            let deg: u8 = steps[d as usize];
            let o: u32 = rng.range(0, span);
            let oct: i64 = octave_low as i64 + o as i64;
            let midi: i64 = 12 * (oct + 1) + key as i64 + deg as i64;
            if 0 <= midi && midi <= 127 {
                col[s] = hit(midi as u8, instr, 15);
            }
        }
        assert(col@.take(s + 1) =~= before.take(s as int).push(col@[s as int]));
    }
    assert(col@.take(STEPS_PER_PHRASE as int) =~= col@);
    put_current(song, ch.index(), &col);
}

// ---------------------------------------------------------------- chord progressions

pub open spec fn spc_of(steps: nat) -> nat {
    if steps < 1 {
        1
    } else if steps > STEPS_PER_PHRASE {
        STEPS_PER_PHRASE as nat
    } else {
        steps
    }
}

/// How many chords of `spc` steps a phrase holds.
pub open spec fn slots_of(spc: nat) -> nat {
    STEPS_PER_PHRASE as nat / spc
}

/// How many phrases a progression takes.
pub open spec fn phrases_for(chords: nat, slots: nat) -> nat {
    (chords + slots - 1) as nat / slots
}

/// The number of the chord sounding at a step of the progression's `pi`-th
/// phrase, if one does.
pub open spec fn chord_at(chords: nat, spc: nat, pi: int, s: int) -> Option<int> {
    let slots = slots_of(spc);
    let slot = s / spc as int;
    let i = pi * slots + slot;
    if slot < slots && i < chords {
        Some(i)
    } else {
        None
    }
}

/// A voice of a progression: struck on the chord, and again more softly
/// half-way through where the chord is long enough.
pub open spec fn voiced(s: int, spc: nat, note: u8, instr: u8, loud: u8, soft: u8) -> Cell {
    if s % spc as int == 0 {
        hit_cell(note, instr, loud)
    } else if spc >= 4 && s % spc as int == spc / 2 {
        hit_cell(note, instr, soft)
    } else {
        song::empty_cell()
    }
}

pub open spec fn top_note(c: ChordView) -> u8 {
    chord::tones(c, 4).last()
}

pub open spec fn mid_note(c: ChordView) -> u8 {
    if c.intervals.len() > 1 {
        chord::tones(c, 4)[1]
    } else {
        top_note(c)
    }
}

pub open spec fn bass_note(c: ChordView) -> u8 {
    chord::tones(c, 2)[0]
}

/// What `chord_prog` writes at a step of one channel.
pub open spec fn prog_cell(cs: Seq<ChordView>, spc: nat, pi: int, s: int, ch: int) -> Cell {
    if ch == 3 {
        if s % 2 == 1 {
            hit_cell(60, 3, 8)
        } else {
            song::empty_cell()
        }
    } else {
        match chord_at(cs.len(), spc, pi, s) {
            None => song::empty_cell(),
            Some(i) => if ch == 0 {
                voiced(s, spc, top_note(cs[i]), 0, 15, 10)
            } else if ch == 1 {
                voiced(s, spc, mid_note(cs[i]), 1, 13, 9)
            } else {
                voiced(s, spc, bass_note(cs[i]), 2, 15, 12)
            },
        }
    }
}

pub open spec fn prog_column(cs: Seq<ChordView>, spc: nat, pi: int, ch: int) -> Seq<Cell> {
    Seq::new(STEPS_PER_PHRASE as nat, |s: int| prog_cell(cs, spc, pi, s, ch))
}

pub open spec fn prog_grid(g: Seq<Seq<Cell>>, cs: Seq<ChordView>, spc: nat, pi: int) -> Seq<
    Seq<Cell>,
> {
    with_channel(
        with_channel(
            with_channel(
                with_channel(g, 0, prog_column(cs, spc, pi, 0)),
                1,
                prog_column(cs, spc, pi, 1),
            ),
            2,
            prog_column(cs, spc, pi, 2),
        ),
        3,
        prog_column(cs, spc, pi, 3),
    )
}

/// The phrases of a song, grown with empty ones to a number.
pub open spec fn grown_to(ps: Seq<Seq<Seq<Cell>>>, n: nat) -> Seq<Seq<Seq<Cell>>> {
    if ps.len() >= n {
        ps
    } else {
        ps + Seq::new((n - ps.len()) as nat, |i: int| song::empty_grid())
    }
}

/// The song with a progression written from the current phrase on.
pub open spec fn with_prog(s: SongView, cs: Seq<ChordView>, steps: nat) -> SongView {
    let spc = spc_of(steps);
    let n = phrases_for(cs.len(), slots_of(spc));
    let first = s.current_phrase as int;
    let ps = grown_to(s.phrases, (first + n) as nat);
    SongView {
        phrases: Seq::new(
            ps.len(),
            |i: int|
                if first <= i < first + n {
                    prog_grid(ps[i], cs, spc, i - first)
                } else {
                    ps[i]
                },
        ),
        ..s
    }
}

pub fn ensure_phrases(song: &mut Song, count: usize)
    ensures
        final(song)@ == (SongView {
            phrases: grown_to(old(song)@.phrases, count as nat),
            ..old(song)@
        }),
        final(song).phrases@.len() >= count,
        final(song).current_phrase == old(song).current_phrase,
{
    let ghost start = song.phrases@;
    while song.phrases.len() < count
        invariant
            start.len() <= song.phrases@.len(),
            song.phrases@.len() <= count || song.phrases@ == start,
            forall|i: int| 0 <= i < start.len() ==> song.phrases@[i] == start[i],
            forall|i: int|
                start.len() <= i < song.phrases@.len() ==> #[trigger] song.phrases@[i]@
                    == song::empty_grid(),
            song@ == (SongView { phrases: song@.phrases, ..old(song)@ }),
            start == old(song).phrases@,
            song.current_phrase == old(song).current_phrase,
        decreases count - song.phrases@.len(),
    {
        song.phrases.push(Phrase::default());
    }
    assert(song@.phrases =~= grown_to(old(song)@.phrases, count as nat));
}

fn clamp_steps(steps: usize) -> (r: usize)
    ensures
        r == spc_of(steps as nat),
        1 <= r <= 16,
{
    if steps < 1 {
        1
    } else if steps > STEPS_PER_PHRASE {
        STEPS_PER_PHRASE
    } else {
        steps
    }
}

proof fn lemma_slots(spc: nat)
    requires
        1 <= spc <= 16,
    ensures
        1 <= slots_of(spc) <= 16,
{
    assert(1 <= 16nat / spc <= 16) by (nonlinear_arith)
        requires
            1 <= spc <= 16,
    ;
}

fn count_phrases(chords: usize, slots: usize) -> (r: usize)
    requires
        1 <= slots <= 16,
    ensures
        r == phrases_for(chords as nat, slots as nat),
        r * slots >= chords,
        r <= chords,
{
    let q: usize = chords / slots;
    let m: usize = chords % slots;
    assert(chords == q * slots + m && m < slots && q <= chords) by (nonlinear_arith)
        requires
            slots >= 1,
            q == chords / slots,
            m == chords % slots,
    ;
    if m == 0 {
        assert((chords + slots - 1) as nat / slots as nat == q) by (nonlinear_arith)
            requires
                slots >= 1,
                chords == q * slots,
        ;
        q
    } else {
        assert((chords + slots - 1) as nat / slots as nat == q + 1) by (nonlinear_arith)
            requires
                slots >= 1,
                chords == q * slots + m,
                0 < m < slots,
        ;
        assert((q + 1) * slots >= chords) by (nonlinear_arith)
            requires
                slots >= 1,
                chords == q * slots + m,
                0 < m < slots,
        ;
        assert(q + 1 <= chords) by (nonlinear_arith)
            requires
                slots >= 1,
                chords == q * slots + m,
                0 < m < slots,
        ;
        q + 1
    }
}

/// The number of the chord at a step.
fn find_chord(chords: usize, spc: usize, slots: usize, pi: usize, s: usize) -> (r: Option<usize>)
    requires
        1 <= spc <= 16,
        slots == slots_of(spc as nat),
        pi * slots <= chords,
        s < STEPS_PER_PHRASE,
    ensures
        match r {
            Some(i) => chord_at(chords as nat, spc as nat, pi as int, s as int) == Some(i as int)
                && i < chords,
            None => chord_at(chords as nat, spc as nat, pi as int, s as int) is None,
        },
{
    let slot: usize = s / spc;
    assert(slot == s as int / spc as int);
    if slot >= slots {
        return None;
    }
    let base: usize = pi * slots;
    if slot < chords - base {
        Some(base + slot)
    } else {
        None
    }
}

fn prog_cell_of(chords: &Vec<Chord>, spc: usize, slots: usize, pi: usize, s: usize, ch: usize) -> (r:
    Cell)
    requires
        1 <= spc <= 16,
        slots == slots_of(spc as nat),
        pi * slots <= chords@.len(),
        s < STEPS_PER_PHRASE,
        ch < 4,
        chord::rooted(chord::chord_views(chords@)),
    ensures
        r == prog_cell(chord::chord_views(chords@), spc as nat, pi as int, s as int, ch as int),
{
    let ghost cs = chord::chord_views(chords@);
    if ch == 3 {
        return if s % 2 == 1 {
            hit(60, 3, 8)
        } else {
            Cell::default()
        };
    }
    assert(cs.len() == chords@.len());
    match find_chord(chords.len(), spc, slots, pi, s) {
        None => Cell::default(),
        Some(i) => {
            let c: &Chord = &chords[i];
            assert(cs[i as int] == c@);
            let m: usize = s % spc;
            assert(m == s as int % spc as int);
            let half: bool = spc >= 4 && m == spc / 2;
            if m != 0 && !half {
                return Cell::default();
            }
            let tones: Vec<u8> = c.tones(4);
            let low: Vec<u8> = c.tones(2);
            if ch == 0 {
                let top: u8 = tones[tones.len() - 1];
                hit(
                    top,
                    0,
                    if m == 0 {
                        15
                    } else {
                        10
                    },
                )
            } else if ch == 1 {
                let mid: u8 = if tones.len() > 1 {
                    tones[1]
                } else {
                    tones[tones.len() - 1]
                };
                hit(
                    mid,
                    1,
                    if m == 0 {
                        13
                    } else {
                        9
                    },
                )
            } else {
                hit(
                    low[0],
                    2,
                    if m == 0 {
                        15
                    } else {
                        12
                    },
                )
            }
        },
    }
}

fn write_prog_phrase(p: &mut Phrase, chords: &Vec<Chord>, spc: usize, slots: usize, pi: usize)
    requires
        1 <= spc <= 16,
        slots == slots_of(spc as nat),
        pi * slots <= chords@.len(),
        chord::rooted(chord::chord_views(chords@)),
    ensures
        final(p)@ == prog_grid(
            old(p)@,
            chord::chord_views(chords@),
            spc as nat,
            pi as int,
        ),
{
    let ghost cs = chord::chord_views(chords@);
    let c0: [Cell; STEPS_PER_PHRASE] = prog_column_of(chords, spc, slots, pi, 0);
    put_channel(p, 0, &c0);
    let c1: [Cell; STEPS_PER_PHRASE] = prog_column_of(chords, spc, slots, pi, 1);
    put_channel(p, 1, &c1);
    let c2: [Cell; STEPS_PER_PHRASE] = prog_column_of(chords, spc, slots, pi, 2);
    put_channel(p, 2, &c2);
    let c3: [Cell; STEPS_PER_PHRASE] = prog_column_of(chords, spc, slots, pi, 3);
    put_channel(p, 3, &c3);
}

fn prog_column_of(chords: &Vec<Chord>, spc: usize, slots: usize, pi: usize, ch: usize) -> (r:
    [Cell; STEPS_PER_PHRASE])
    requires
        1 <= spc <= 16,
        slots == slots_of(spc as nat),
        pi * slots <= chords@.len(),
        ch < 4,
        chord::rooted(chord::chord_views(chords@)),
    ensures
        r@ == prog_column(chord::chord_views(chords@), spc as nat, pi as int, ch as int),
{
    let ghost want = prog_column(chord::chord_views(chords@), spc as nat, pi as int, ch as int);
    let mut col: [Cell; STEPS_PER_PHRASE] = blank_column();
    for s in 0..STEPS_PER_PHRASE
        invariant
            1 <= spc <= 16,
            slots == slots_of(spc as nat),
            pi * slots <= chords@.len(),
            ch < 4,
            chord::rooted(chord::chord_views(chords@)),
            want == prog_column(chord::chord_views(chords@), spc as nat, pi as int, ch as int),
            forall|j: int| 0 <= j < s ==> #[trigger] col@[j] == want[j],
    {
        col[s] = prog_cell_of(chords, spc, slots, pi, s, ch);
    }
    assert(col@ =~= want);
    col
}

/// Voices a progression across the pulses and the triangle with a hat pulse,
/// from the current phrase on, growing the song as needed. Returns how many
/// phrases were written.
pub fn chord_prog(song: &mut Song, chords: &Vec<Chord>, steps_per_chord: usize) -> (r: usize)
    requires
        old(song).current_phrase < old(song).phrases@.len(),
        old(song).current_phrase + chords@.len() <= usize::MAX,
        chord::rooted(chord::chord_views(chords@)),
    ensures
        final(song)@ == with_prog(
            old(song)@,
            chord::chord_views(chords@),
            steps_per_chord as nat,
        ),
        r == phrases_for(chords@.len(), slots_of(spc_of(steps_per_chord as nat))),
{
    let ghost cs = chord::chord_views(chords@);
    let spc: usize = clamp_steps(steps_per_chord);
    proof {
        lemma_slots(spc as nat);
    }
    let slots: usize = STEPS_PER_PHRASE / spc;
    let n: usize = count_phrases(chords.len(), slots);
    let first: usize = song.current_phrase;
    ensure_phrases(song, first + n);
    let ghost ps = song@.phrases;
    let ghost start = song@;
    let mut pi: usize = 0;
    while pi < n
        invariant
            pi <= n,
            1 <= spc <= 16,
            slots == slots_of(spc as nat),
            1 <= slots <= 16,
            n == phrases_for(chords@.len(), slots as nat),
            first + n <= song.phrases@.len(),
            first + n <= usize::MAX,
            chord::rooted(chord::chord_views(chords@)),
            cs == chord::chord_views(chords@),
            ps.len() == song.phrases@.len(),
            song@ == (SongView { phrases: song@.phrases, ..start }),
            forall|i: int|
                0 <= i < ps.len() ==> #[trigger] song@.phrases[i] == (if first <= i < first + pi {
                    prog_grid(ps[i], cs, spc as nat, i - first)
                } else {
                    ps[i]
                }),
        decreases n - pi,
    {
        assert(pi * slots <= chords@.len()) by {
            lemma_phrase_start(chords@.len(), slots as nat, pi as nat);
        }
        let ghost before = song@.phrases;
        let mut p: Phrase = song.phrases[first + pi];
        assert(before[first + pi] == p@);
        write_prog_phrase(&mut p, chords, spc, slots, pi);
        song.phrases[first + pi] = p;
        assert(song@.phrases =~= before.update(first + pi, p@));
        pi += 1;
    }
    assert(song@.phrases =~= with_prog(old(song)@, cs, steps_per_chord as nat).phrases);
    n
}

proof fn lemma_phrase_start(chords: nat, slots: nat, pi: nat)
    requires
        slots >= 1,
        pi < phrases_for(chords, slots),
    ensures
        pi * slots <= chords,
{
    let x = (chords + slots - 1) as nat;
    assert((x / slots) * slots <= x) by (nonlinear_arith)
        requires
            slots >= 1,
    ;
    assert(pi * slots + slots <= (x / slots) * slots) by (nonlinear_arith)
        requires
            pi + 1 <= x / slots,
            slots >= 1,
    ;
}

// ---------------------------------------------------------------- bass lines

#[derive(Clone, Copy, Debug, PartialEq, Eq, Structural)]
pub enum BassStyle {
    Walking,
    Arpeggio,
    RootFifth,
    Octaves,
    Roots,
}

pub open spec fn bass_style(s: Seq<char>) -> Option<BassStyle> {
    if s == "walking"@ || s == "walk"@ {
        Some(BassStyle::Walking)
    } else if s == "arpeggio"@ || s == "arp"@ {
        Some(BassStyle::Arpeggio)
    } else if s == "root_fifth"@ || s == "root5"@ {
        Some(BassStyle::RootFifth)
    } else if s == "octaves"@ {
        Some(BassStyle::Octaves)
    } else if s == "roots"@ || s == "root"@ {
        Some(BassStyle::Roots)
    } else {
        None
    }
}

pub fn read_bass_style(s: &[char]) -> (r: Option<BassStyle>)
    ensures
        r == bass_style(s@),
{
    if text::is_lit(s, "walking") || text::is_lit(s, "walk") {
        Some(BassStyle::Walking)
    } else if text::is_lit(s, "arpeggio") || text::is_lit(s, "arp") {
        Some(BassStyle::Arpeggio)
    } else if text::is_lit(s, "root_fifth") || text::is_lit(s, "root5") {
        Some(BassStyle::RootFifth)
    } else if text::is_lit(s, "octaves") {
        Some(BassStyle::Octaves)
    } else if text::is_lit(s, "roots") || text::is_lit(s, "root") {
        Some(BassStyle::Roots)
    } else {
        None
    }
}

/// Steps between two notes of a style.
pub open spec fn bass_stride(style: BassStyle, spc: nat) -> nat {
    match style {
        BassStyle::Arpeggio => 1,
        BassStyle::Octaves => 1,
        BassStyle::Roots => spc,
        _ => 2,
    }
}

/// The pitch of a walking line's `i`-th note: root, third, fifth, then the
/// octave; the last of more than one leads into the next root by a semitone.
pub open spec fn walking_pitch(
    root: int,
    third: int,
    fifth: int,
    next_root: int,
    slots: int,
    i: int,
) -> int {
    if slots > 1 && i == slots - 1 {
        if next_root > root {
            next_root - 1
        } else {
            next_root + 1
        }
    } else if i == 0 {
        root
    } else if i == 1 {
        third
    } else if i == 2 {
        fifth
    } else {
        root + 12
    }
}

/// The pitch of a bass line's `i`-th note under a chord.
pub open spec fn bass_pitch(
    c: ChordView,
    next: ChordView,
    style: BassStyle,
    spc: nat,
    i: int,
) -> int {
    let root = bass_note(c) as int;
    let third = root + chord::interval(c, 1);
    let fifth = root + chord::interval(c, 2);
    match style {
        BassStyle::Walking => {
            let slots = if spc / 2 < 1 {
                1int
            } else {
                spc as int / 2
            };
            walking_pitch(root, third, fifth, bass_note(next) as int, slots, i % slots)
        },
        BassStyle::Arpeggio => {
            let k = i % 4;
            if k == 0 {
                root
            } else if k == 1 {
                third
            } else if k == 2 {
                fifth
            } else {
                root + 12
            }
        },
        BassStyle::RootFifth => if i % 2 == 0 {
            root
        } else {
            fifth
        },
        BassStyle::Octaves => if i % 2 == 0 {
            root
        } else {
            root + 12
        },
        BassStyle::Roots => root,
    }
}

pub open spec fn bass_cell(
    cs: Seq<ChordView>,
    style: BassStyle,
    spc: nat,
    pi: int,
    s: int,
) -> Cell {
    match chord_at(cs.len(), spc, pi, s) {
        None => song::empty_cell(),
        Some(i) => {
            let o = s % spc as int;
            let stride = bass_stride(style, spc) as int;
            if o % stride == 0 {
                let next = cs[(i + 1) % cs.len() as int];
                hit_cell(
                    chord::clamp(bass_pitch(cs[i], next, style, spc, o / stride), 24, 96) as u8,
                    2,
                    15,
                )
            } else {
                song::empty_cell()
            }
        },
    }
}

pub open spec fn bass_column(cs: Seq<ChordView>, style: BassStyle, spc: nat, pi: int) -> Seq<Cell> {
    Seq::new(STEPS_PER_PHRASE as nat, |s: int| bass_cell(cs, style, spc, pi, s))
}

/// The song with a bass line on the triangle.
pub open spec fn with_bass(
    s: SongView,
    cs: Seq<ChordView>,
    style: BassStyle,
    steps: nat,
) -> SongView {
    let spc = spc_of(steps);
    let n = phrases_for(cs.len(), slots_of(spc));
    let first = s.current_phrase as int;
    let ps = grown_to(s.phrases, (first + n) as nat);
    SongView {
        phrases: Seq::new(
            ps.len(),
            |i: int|
                if first <= i < first + n {
                    with_channel(ps[i], 2, bass_column(cs, style, spc, i - first))
                } else {
                    ps[i]
                },
        ),
        ..s
    }
}

fn bass_pitch_of(c: &Chord, next: &Chord, style: BassStyle, spc: usize, i: usize) -> (r: i64)
    requires
        1 <= spc <= 16,
        c@.intervals.len() >= 1,
        next@.intervals.len() >= 1,
    ensures
        r == bass_pitch(c@, next@, style, spc as nat, i as int),
{
    let low: Vec<u8> = c.tones(2);
    let next_low: Vec<u8> = next.tones(2);
    let root: i64 = low[0] as i64;
    let next_root: i64 = next_low[0] as i64;
    let third: i64 = root + c.interval(1) as i64;
    let fifth: i64 = root + c.interval(2) as i64;
    match style {
        BassStyle::Walking => {
            let slots: usize = if spc / 2 < 1 {
                1
            } else {
                spc / 2
            };
            let k: usize = i % slots;
            if slots > 1 && k == slots - 1 {
                if next_root > root {
                    next_root - 1
                } else {
                    next_root + 1
                }
            } else if k == 0 {
                root
            } else if k == 1 {
                third
            } else if k == 2 {
                fifth
            } else {
                root + 12
            }
        },
        BassStyle::Arpeggio => {
            let k: usize = i % 4;
            if k == 0 {
                root
            } else if k == 1 {
                third
            } else if k == 2 {
                fifth
            } else {
                root + 12
            }
        },
        BassStyle::RootFifth => if i % 2 == 0 {
            root
        } else {
            fifth
        },
        BassStyle::Octaves => if i % 2 == 0 {
            root
        } else {
            root + 12
        },
        BassStyle::Roots => root,
    }
}

fn bass_cell_of(
    chords: &Vec<Chord>,
    style: BassStyle,
    spc: usize,
    slots: usize,
    pi: usize,
    s: usize,
) -> (r: Cell)
    requires
        1 <= spc <= 16,
        slots == slots_of(spc as nat),
        pi * slots <= chords@.len(),
        s < STEPS_PER_PHRASE,
        chord::rooted(chord::chord_views(chords@)),
    ensures
        r == bass_cell(chord::chord_views(chords@), style, spc as nat, pi as int, s as int),
{
    let ghost cs = chord::chord_views(chords@);
    assert(cs.len() == chords@.len());
    match find_chord(chords.len(), spc, slots, pi, s) {
        None => Cell::default(),
        Some(i) => {
            let o: usize = s % spc;
            assert(o == s as int % spc as int);
            let stride: usize = match style {
                BassStyle::Arpeggio => 1,
                BassStyle::Octaves => 1,
                BassStyle::Roots => spc,
                _ => 2,
            };
            if o % stride != 0 {
                return Cell::default();
            }
            let j: usize = if i + 1 == chords.len() {
                0
            } else {
                i + 1
            };
            assert(j == (i + 1) % cs.len() as int) by {
                if i + 1 < chords@.len() {
                    vstd::arithmetic::div_mod::lemma_small_mod(
                        (i + 1) as nat,
                        chords@.len(),
                    );
                } else {
                    vstd::arithmetic::div_mod::lemma_mod_self_0(chords@.len() as int);
                }
            }
            assert(cs[i as int] == chords@[i as int]@);
            assert(cs[j as int] == chords@[j as int]@);
            let pitch: i64 = bass_pitch_of(&chords[i], &chords[j], style, spc, o / stride);
            let note: u8 = if pitch < 24 {
                24
            } else if pitch > 96 {
                96
            } else {
                pitch as u8
            };
            hit(note, 2, 15)
        },
    }
}

/// A bass line on the triangle under a progression, from the current phrase
/// on. Returns how many phrases were written, or `None` where the style has
/// no such name.
pub fn bassline(song: &mut Song, chords: &Vec<Chord>, style: &str, steps_per_chord: usize) -> (r:
    Option<usize>)
    requires
        old(song).current_phrase < old(song).phrases@.len(),
        old(song).current_phrase + chords@.len() <= usize::MAX,
        chord::rooted(chord::chord_views(chords@)),
    ensures
        match r {
            Some(n) => {
                &&& n == phrases_for(chords@.len(), slots_of(spc_of(steps_per_chord as nat)))
                &&& match bass_style(style@) {
                    Some(b) => final(song)@ == with_bass(
                        old(song)@,
                        chord::chord_views(chords@),
                        b,
                        steps_per_chord as nat,
                    ),
                    None => chords@.len() == 0 && final(song)@ == old(song)@,
                }
            },
            None => bass_style(style@) is None && chords@.len() > 0 && *final(song) == *old(song),
        },
{
    let ghost cs = chord::chord_views(chords@);
    assert(cs.len() == chords@.len());
    let spc: usize = clamp_steps(steps_per_chord);
    proof {
        lemma_slots(spc as nat);
    }
    let slots: usize = STEPS_PER_PHRASE / spc;
    let n: usize = count_phrases(chords.len(), slots);
    let first: usize = song.current_phrase;
    let name: Vec<char> = text::chars_of(style);
    let style: BassStyle = match read_bass_style(name.as_slice()) {
        Some(b) => b,
        None => {
            if chords.len() == 0 {
                return Some(n);
            }
            return None;
        },
    };
    ensure_phrases(song, first + n);
    let ghost ps = song@.phrases;
    let ghost start = song@;
    let mut pi: usize = 0;
    while pi < n
        invariant
            pi <= n,
            1 <= spc <= 16,
            slots == slots_of(spc as nat),
            1 <= slots <= 16,
            n == phrases_for(chords@.len(), slots as nat),
            first + n <= song.phrases@.len(),
            first + n <= usize::MAX,
            chord::rooted(chord::chord_views(chords@)),
            cs == chord::chord_views(chords@),
            ps.len() == song.phrases@.len(),
            song@ == (SongView { phrases: song@.phrases, ..start }),
            forall|i: int|
                0 <= i < ps.len() ==> #[trigger] song@.phrases[i] == (if first <= i < first + pi {
                    with_channel(ps[i], 2, bass_column(cs, style, spc as nat, i - first))
                } else {
                    ps[i]
                }),
        decreases n - pi,
    {
        proof {
            lemma_phrase_start(chords@.len(), slots as nat, pi as nat);
        }
        let ghost want = bass_column(cs, style, spc as nat, pi as int);
        let mut col: [Cell; STEPS_PER_PHRASE] = blank_column();
        for s in 0..STEPS_PER_PHRASE
            invariant
                1 <= spc <= 16,
                slots == slots_of(spc as nat),
                pi * slots <= chords@.len(),
                chord::rooted(chord::chord_views(chords@)),
                cs == chord::chord_views(chords@),
                want == bass_column(cs, style, spc as nat, pi as int),
                forall|j: int| 0 <= j < s ==> #[trigger] col@[j] == want[j],
        {
            col[s] = bass_cell_of(chords, style, spc, slots, pi, s);
        }
        assert(col@ =~= want);
        let ghost before = song@.phrases;
        let mut p: Phrase = song.phrases[first + pi];
        assert(before[first + pi] == p@);
        put_channel(&mut p, 2, &col);
        song.phrases[first + pi] = p;
        assert(song@.phrases =~= before.update(first + pi, p@));
        pi += 1;
    }
    assert(song@.phrases =~= with_bass(old(song)@, cs, style, steps_per_chord as nat).phrases);
    Some(n)
}


// ---------------------------------------------------------------- arpeggios

#[derive(Clone, Copy, Debug, PartialEq, Eq, Structural)]
pub enum ArpPattern {
    Up,
    Down,
    UpDown,
    Random,
}

pub open spec fn arp_pattern(s: Seq<char>) -> Option<ArpPattern> {
    if s == "up"@ {
        Some(ArpPattern::Up)
    } else if s == "down"@ {
        Some(ArpPattern::Down)
    } else if s == "updown"@ || s == "pingpong"@ {
        Some(ArpPattern::UpDown)
    } else if s == "random"@ {
        Some(ArpPattern::Random)
    } else {
        None
    }
}

pub fn read_arp_pattern(s: &[char]) -> (r: Option<ArpPattern>)
    ensures
        r == arp_pattern(s@),
{
    if text::is_lit(s, "up") {
        Some(ArpPattern::Up)
    } else if text::is_lit(s, "down") {
        Some(ArpPattern::Down)
    } else if text::is_lit(s, "updown") || text::is_lit(s, "pingpong") {
        Some(ArpPattern::UpDown)
    } else if text::is_lit(s, "random") {
        Some(ArpPattern::Random)
    } else {
        None
    }
}

/// Whether a note is a chord tone in one of `octaves` octaves from the fourth.
pub open spec fn in_pool(c: ChordView, octaves: int, n: u8) -> bool {
    exists|o: int, i: int|
        4 <= o < 4 + octaves && 0 <= i < c.intervals.len() && #[trigger] chord::tone(
            c.root,
            c.intervals[i],
            o,
        ) == n
}

/// The notes below `k` of the pool, in ascending order.
pub open spec fn pool_below(c: ChordView, octaves: int, k: nat) -> Seq<u8>
    decreases k,
{
    if k == 0 {
        Seq::empty()
    } else {
        let before = pool_below(c, octaves, (k - 1) as nat);
        if in_pool(c, octaves, (k - 1) as u8) {
            before.push((k - 1) as u8)
        } else {
            before
        }
    }
}

/// The distinct chord tones over `octaves` octaves (at least one), ascending.
pub open spec fn arp_pool(c: ChordView, octaves: i32) -> Seq<u8> {
    pool_below(
        c,
        if octaves < 1 {
            1
        } else {
            octaves as int
        },
        128,
    )
}

/// The notes an arpeggio runs through before it repeats.
pub open spec fn arp_run(pool: Seq<u8>, p: ArpPattern) -> Seq<u8> {
    match p {
        ArpPattern::Up => pool,
        ArpPattern::Down => pool.reverse(),
        ArpPattern::UpDown => if pool.len() > 2 {
            pool + pool.subrange(1, pool.len() - 1).reverse()
        } else {
            pool
        },
        ArpPattern::Random => pool,
    }
}

/// The first `k` steps of an arpeggio and the generator after them.
pub open spec fn arp_steps(
    k: nat,
    run: Seq<u8>,
    random: bool,
    len: nat,
    rate: nat,
    instr: u8,
    seed: u64,
) -> (Seq<Cell>, u64)
    decreases k,
{
    if k == 0 {
        (Seq::empty(), gen::rng_seed(seed))
    } else {
        let (cells, x) = arp_steps((k - 1) as nat, run, random, len, rate, instr, seed);
        let s = k - 1;
        if s < len && s % rate as int == 0 {
            if random {
                let x1 = gen::rng_next(x);
                (
                    cells.push(
                        hit_cell(run[gen::rng_range(x1, 0, run.len() as u32) as int], instr, 15),
                    ),
                    x1,
                )
            } else {
                (
                    cells.push(hit_cell(run[(s / rate as int) % run.len() as int], instr, 15)),
                    x,
                )
            }
        } else {
            (cells.push(song::empty_cell()), x)
        }
    }
}

pub open spec fn arp_column(
    c: ChordView,
    p: ArpPattern,
    len: nat,
    rate: nat,
    octaves: i32,
    instr: u8,
    seed: u64,
) -> Seq<Cell> {
    arp_steps(
        STEPS_PER_PHRASE as nat,
        arp_run(arp_pool(c, octaves), p),
        p == ArpPattern::Random,
        spc_of(len),
        if rate < 1 {
            1
        } else {
            rate
        },
        instr,
        seed,
    ).0
}

fn find_in_pool(c: &Chord, octaves: i64, n: u8) -> (r: bool)
    requires
        1 <= octaves <= 0x7fff_ffff,
    ensures
        r == in_pool(c@, octaves as int, n),
{
    let mut o: i64 = 4;
    while o < 4 + octaves
        invariant
            4 <= o <= 4 + octaves,
            octaves <= 0x7fff_ffff,
            forall|p: int, i: int|
                4 <= p < o && 0 <= i < c@.intervals.len() ==> #[trigger] chord::tone(
                    c@.root,
                    c@.intervals[i],
                    p,
                ) != n,
        decreases 4 + octaves - o,
    {
        let mut i: usize = 0;
        while i < c.intervals.len()
            invariant
                4 <= o < 4 + octaves,
                octaves <= 0x7fff_ffff,
                i <= c.intervals@.len(),
                forall|j: int|
                    0 <= j < i ==> #[trigger] chord::tone(c@.root, c@.intervals[j], o as int) != n,
            decreases c.intervals@.len() - i,
        {
            if chord::tone_of(c.root, c.intervals[i], o) == n {
                assert(chord::tone(c@.root, c@.intervals[i as int], o as int) == n);
                return true;
            }
            i += 1;
        }
        assert forall|p: int, i: int|
            4 <= p < o + 1 && 0 <= i < c@.intervals.len() implies #[trigger] chord::tone(
            c@.root,
            c@.intervals[i],
            p,
        ) != n by {
            if p == o {
                assert(chord::tone(c@.root, c@.intervals[i], o as int) != n);
            }
        }
        o += 1;
    }
    false
}

proof fn lemma_pool(c: ChordView, octaves: int, k: nat)
    requires
        k <= 128,
    ensures
        pool_below(c, octaves, k).len() <= k,
        forall|n: u8|
            n < k && #[trigger] in_pool(c, octaves, n) ==> pool_below(c, octaves, k).len() > 0,
    decreases k,
{
    if k > 0 {
        lemma_pool(c, octaves, (k - 1) as nat);
    }
}

/// A chord with a root has something to arpeggiate.
proof fn lemma_pool_not_empty(c: ChordView, octaves: i32)
    requires
        c.intervals.len() >= 1,
    ensures
        0 < arp_pool(c, octaves).len() <= 128,
{
    let oct: int = if octaves < 1 {
        1
    } else {
        octaves as int
    };
    let n = chord::tone(c.root, c.intervals[0], 4);
    assert(in_pool(c, oct, n));
    lemma_pool(c, oct, 128);
}

fn pool_of(c: &Chord, octaves: i32) -> (r: Vec<u8>)
    requires
        c@.intervals.len() >= 1,
    ensures
        r@ == arp_pool(c@, octaves),
        0 < r@.len() <= 128,
{
    let oct: i64 = if octaves < 1 {
        1
    } else {
        octaves as i64
    };
    let mut out: Vec<u8> = Vec::new();
    let mut k: u8 = 0;
    while k < 128
        invariant
            k <= 128,
            1 <= oct <= 0x7fff_ffff,
            out@ == pool_below(c@, oct as int, k as nat),
        decreases 128 - k,
    {
        if find_in_pool(c, oct, k) {
            out.push(k);
        }
        k += 1;
    }
    proof {
        lemma_pool_not_empty(c@, octaves);
    }
    out
}

fn run_of(pool: &Vec<u8>, p: ArpPattern) -> (r: Vec<u8>)
    requires
        0 < pool@.len() <= 128,
    ensures
        r@ == arp_run(pool@, p),
        0 < r@.len() <= 256,
{
    let n: usize = pool.len();
    match p {
        ArpPattern::Up | ArpPattern::Random => {
            let mut out: Vec<u8> = Vec::new();
            for i in 0..n
                invariant
                    n == pool@.len(),
                    out@ == pool@.take(i as int),
            {
                out.push(pool[i]);
                assert(out@ =~= pool@.take(i + 1));
            }
            assert(pool@.take(n as int) =~= pool@);
            out
        },
        ArpPattern::Down => {
            let mut out: Vec<u8> = Vec::new();
            for i in 0..n
                invariant
                    n == pool@.len(),
                    out@ == pool@.reverse().take(i as int),
            {
                out.push(pool[n - 1 - i]);
                assert(out@ =~= pool@.reverse().take(i + 1));
            }
            assert(pool@.reverse().take(n as int) =~= pool@.reverse());
            out
        },
        ArpPattern::UpDown => {
            let mut out: Vec<u8> = Vec::new();
            for i in 0..n
                invariant
                    n == pool@.len(),
                    out@ == pool@.take(i as int),
            {
                out.push(pool[i]);
                assert(out@ =~= pool@.take(i + 1));
            }
            assert(pool@.take(n as int) =~= pool@);
            if n > 2 {
                let ghost back = pool@.subrange(1, n - 1).reverse();
                assert(out@ =~= pool@ + back.take(0));
                for i in 0..n - 2
                    invariant
                        n == pool@.len(),
                        n > 2,
                        back == pool@.subrange(1, n - 1).reverse(),
                        out@ == pool@ + back.take(i as int),
                {
                    out.push(pool[n - 2 - i]);
                    assert(back[i as int] == pool@[n - 2 - i]);
                    assert(out@ =~= pool@ + back.take(i + 1));
                }
                assert(back.take(n - 2) =~= back);
            }
            out
        },
    }
}

/// Arpeggiates one chord on a channel: `len` steps, a note every `rate`
/// steps, over `octaves` octaves from the fourth. Returns `false`, with the
/// song unchanged, where the pattern has no such name.
pub fn arp(
    song: &mut Song,
    ch: Channel,
    c: &Chord,
    pattern: &str,
    len: usize,
    rate: usize,
    octaves: i32,
    seed: u64,
) -> (r: bool)
    requires
        old(song).current_phrase < old(song).phrases@.len(),
        c@.intervals.len() >= 1,
    ensures
        r == (arp_pattern(pattern@) is Some),
        r ==> final(song)@ == with_current(
            old(song)@,
            with_channel(
                current(old(song)@),
                gen::channel_index(ch) as int,
                arp_column(
                    c@,
                    arp_pattern(pattern@)->0,
                    len as nat,
                    rate as nat,
                    octaves,
                    default_hit(ch).1,
                    seed,
                ),
            ),
        ),
        !r ==> final(song)@ == old(song)@,
{
    let name: Vec<char> = text::chars_of(pattern);
    let p: ArpPattern = match read_arp_pattern(name.as_slice()) {
        Some(p) => p,
        None => {
            return false;
        },
    };
    let pool: Vec<u8> = pool_of(c, octaves);
    let run: Vec<u8> = run_of(&pool, p);
    let random: bool = p == ArpPattern::Random;
    let mut rng: Rng = Rng::new(seed);
    let (_, instr): (u8, u8) = default_note_instr(ch);
    let len: usize = clamp_steps(len);
    let rate: usize = if rate < 1 {
        1
    } else {
        rate
    };
    let mut col: [Cell; STEPS_PER_PHRASE] = blank_column();
    for s in 0..STEPS_PER_PHRASE
        invariant
            0 < run@.len() <= 256,
            rate >= 1,
            forall|j: int|
                s <= j < STEPS_PER_PHRASE ==> #[trigger] col@[j] == song::empty_cell(),
            (col@.take(s as int), rng.state) == arp_steps(
                s as nat,
                run@,
                random,
                len as nat,
                rate as nat,
                instr,
                seed,
            ),
    {
        let ghost before = col@;
        assert(s % rate == s as int % rate as int);
        if s < len && s % rate == 0 {
            let note: u8 = if random {
                let k: u32 = rng.range(0, run.len() as u32);
                run[k as usize]
            } else {
                assert((s / rate) as int == s as int / rate as int);
                run[(s / rate) % run.len()]
            };
            col[s] = hit(note, instr, 15);
        }
        assert(col@.take(s + 1) =~= before.take(s as int).push(col@[s as int]));
    }
    assert(col@.take(STEPS_PER_PHRASE as int) =~= col@);
    put_current(song, ch.index(), &col);
    true
}

// ---------------------------------------------------------------- drums

/// A drum preset: sixteen-step masks (`x` is a hit) for kick, snare, closed
/// hat and open hat.
#[derive(Clone, Copy, Debug)]
pub struct DrumPreset {
    pub name: &'static str,
    pub kick: &'static str,
    pub snare: &'static str,
    pub hat: &'static str,
    pub open: &'static str,
}

#[verifier::ext_equal]
pub struct DrumView {
    pub name: Seq<char>,
    pub kick: Seq<char>,
    pub snare: Seq<char>,
    pub hat: Seq<char>,
    pub open: Seq<char>,
}

impl View for DrumPreset {
    type V = DrumView;

    open spec fn view(&self) -> DrumView {
        DrumView {
            name: self.name@,
            kick: self.kick@,
            snare: self.snare@,
            hat: self.hat@,
            open: self.open@,
        }
    }
}

/// The bundled drum presets.
pub open spec fn drum_table() -> Seq<DrumView> {
    seq![
        DrumView {
            name: "four"@,
            kick: "x...x...x...x..."@,
            snare: "....x.......x..."@,
            hat: "..x...x...x...x."@,
            open: "................"@,
        },
        DrumView {
            name: "breakbeat"@,
            kick: "x..x..x...x.x..."@,
            snare: "....x......x..x."@,
            hat: "x.x.x.x.x.x.x.x."@,
            open: "................"@,
        },
        DrumView {
            name: "amen"@,
            kick: "x.x.......xx...."@,
            snare: "....x..x.x..x..x"@,
            hat: "x.x.x.x.x.x.x.x."@,
            open: "................"@,
        },
        DrumView {
            name: "trap"@,
            kick: "x......x..x....."@,
            snare: "....x.......x..."@,
            hat: "xxxxxxxxxxxxxxxx"@,
            open: "......x.......x."@,
        },
        DrumView {
            name: "gameboy"@,
            kick: "x...x...x...x..."@,
            snare: "....x.......x..x"@,
            hat: "..x...x...x...x."@,
            open: "................"@,
        },
        DrumView {
            name: "dnb"@,
            kick: "x.........x....."@,
            snare: "....x.......x..."@,
            hat: "x.x.x.x.x.x.x.x."@,
            open: "..............x."@,
        },
        DrumView {
            name: "halftime"@,
            kick: "x.......x......."@,
            snare: "........x......."@,
            hat: "..x...x...x...x."@,
            open: "................"@,
        },
        DrumView {
            name: "dbeat"@,
            kick: "x..x..x..x..x..x"@,
            snare: "..x..x..x..x..x."@,
            hat: "x.x.x.x.x.x.x.x."@,
            open: "................"@,
        },
        DrumView {
            name: "blast"@,
            kick: "x.x.x.x.x.x.x.x."@,
            snare: ".x.x.x.x.x.x.x.x"@,
            hat: "x.x.x.x.x.x.x.x."@,
            open: "................"@,
        },
    ]
}

pub open spec fn drum_views(v: Seq<DrumPreset>) -> Seq<DrumView> {
    v.map_values(|p: DrumPreset| p@)
}

fn preset(
    name: &'static str,
    kick: &'static str,
    snare: &'static str,
    hat: &'static str,
    open: &'static str,
) -> (r: DrumPreset)
    ensures
        r@ == (DrumView {
            name: name@,
            kick: kick@,
            snare: snare@,
            hat: hat@,
            open: open@,
        }),
{
    DrumPreset { name, kick, snare, hat, open }
}

/// The bundled drum presets.
pub fn drum_presets() -> (r: Vec<DrumPreset>)
    ensures
        drum_views(r@) == drum_table(),
        r@.len() == 9,
{
    let none: &'static str = "................";
    let eights: &'static str = "x.x.x.x.x.x.x.x.";
    let offs: &'static str = "..x...x...x...x.";
    let back: &'static str = "....x.......x...";
    let floor: &'static str = "x...x...x...x...";
    let mut v: Vec<DrumPreset> = Vec::new();
    v.push(preset("four", floor, back, offs, none));
    v.push(preset("breakbeat", "x..x..x...x.x...", "....x......x..x.", eights, none));
    v.push(preset("amen", "x.x.......xx....", "....x..x.x..x..x", eights, none));
    v.push(preset("trap", "x......x..x.....", back, "xxxxxxxxxxxxxxxx", "......x.......x."));
    v.push(preset("gameboy", floor, "....x.......x..x", offs, none));
    v.push(preset("dnb", "x.........x.....", back, eights, "..............x."));
    v.push(preset("halftime", "x.......x.......", "........x.......", offs, none));
    v.push(preset("dbeat", "x..x..x..x..x..x", "..x..x..x..x..x.", eights, none));
    v.push(preset("blast", eights, ".x.x.x.x.x.x.x.x", eights, none));
    assert(drum_views(v@) =~= drum_table());
    v
}

/// The first preset with a name, from `i` on.
pub open spec fn find_drums(ps: Seq<DrumView>, name: Seq<char>, i: nat) -> Option<DrumView>
    decreases ps.len() - i,
{
    if i >= ps.len() {
        None
    } else if ps[i as int].name == name {
        Some(ps[i as int])
    } else {
        find_drums(ps, name, i + 1)
    }
}

pub open spec fn drums_named(name: Seq<char>) -> Option<DrumView> {
    find_drums(drum_table(), text::lower(name), 0)
}

pub fn read_drum_preset(name: &[char]) -> (r: Option<DrumPreset>)
    ensures
        match r {
            Some(p) => drums_named(name@) == Some(p@),
            None => drums_named(name@) is None,
        },
{
    let want: Vec<char> = text::lower_of(name);
    let ps: Vec<DrumPreset> = drum_presets();
    let ghost table = drum_table();
    let mut i: usize = 0;
    while i < ps.len()
        invariant
            i <= ps@.len(),
            table == drum_table(),
            drum_views(ps@) == table,
            want@ == text::lower(name@),
            drums_named(name@) == find_drums(table, want@, i as nat),
        decreases ps@.len() - i,
    {
        assert(table[i as int] == ps@[i as int]@);
        if text::is_lit(want.as_slice(), ps[i].name) {
            return Some(ps[i]);
        }
        i += 1;
    }
    assert(table.len() == ps@.len());
    None
}

/// A bundled drum preset by name, in any case.
pub fn drum_preset(name: &str) -> (r: Option<DrumPreset>)
    ensures
        match r {
            Some(p) => drums_named(name@) == Some(p@),
            None => drums_named(name@) is None,
        },
{
    let v: Vec<char> = text::chars_of(name);
    read_drum_preset(v.as_slice())
}

pub open spec fn mask_on(mask: Seq<char>, s: int) -> bool {
    s < mask.len() && (mask[s] == 'x' || mask[s] == 'X')
}

/// The snare, with `fills` extra hits spread over the last four steps.
pub open spec fn snare_on(p: DrumView, fills: nat, s: int) -> bool {
    mask_on(p.snare, s) || (fills > 0 && s >= 12 && gen::euclid_pattern(
        if fills < 4 {
            fills
        } else {
            4
        },
        4,
        0,
    )[s - 12])
}

/// The sample channel: the snare wins a shared step.
pub open spec fn drum_dpcm_cell(p: DrumView, fills: nat, s: int) -> Cell {
    if snare_on(p, fills, s) {
        hit_cell(61, 0, 15)
    } else if mask_on(p.kick, s) {
        hit_cell(60, 0, 15)
    } else {
        song::empty_cell()
    }
}

/// The noise channel beside the samples: hats, and the kick where the snare
/// took its step.
pub open spec fn drum_hat_cell(p: DrumView, fills: nat, s: int) -> Cell {
    if mask_on(p.open, s) {
        hit_cell(55, 3, 12)
    } else if mask_on(p.kick, s) && snare_on(p, fills, s) {
        hit_cell(36, 3, 15)
    } else if mask_on(p.hat, s) {
        hit_cell(60, 3, 9)
    } else {
        song::empty_cell()
    }
}

/// Everything on the noise channel.
pub open spec fn drum_noise_cell(p: DrumView, fills: nat, s: int) -> Cell {
    let kick = mask_on(p.kick, s);
    let snare = snare_on(p, fills, s);
    let hat = mask_on(p.hat, s);
    let vol: u8 = if hat && !kick && !snare {
        9
    } else {
        15
    };
    if kick {
        hit_cell(36, 3, vol)
    } else if snare {
        hit_cell(50, 3, vol)
    } else if mask_on(p.open, s) {
        hit_cell(55, 3, vol)
    } else if hat {
        hit_cell(60, 3, vol)
    } else {
        song::empty_cell()
    }
}

pub open spec fn drum_grid(g: Seq<Seq<Cell>>, p: DrumView, fills: nat, dpcm: bool) -> Seq<
    Seq<Cell>,
> {
    if dpcm {
        with_channel(
            with_channel(
                g,
                3,
                Seq::new(STEPS_PER_PHRASE as nat, |s: int| drum_hat_cell(p, fills, s)),
            ),
            4,
            Seq::new(STEPS_PER_PHRASE as nat, |s: int| drum_dpcm_cell(p, fills, s)),
        )
    } else {
        with_channel(
            g,
            3,
            Seq::new(STEPS_PER_PHRASE as nat, |s: int| drum_noise_cell(p, fills, s)),
        )
    }
}

fn is_on(mask: &Vec<char>, s: usize) -> (r: bool)
    ensures
        r == mask_on(mask@, s as int),
{
    s < mask.len() && (mask[s] == 'x' || mask[s] == 'X')
}

/// Writes a drum preset: kick and snare on the sample channel, hats on the
/// noise channel; without samples everything lands on the noise channel.
pub fn drums(song: &mut Song, preset: &DrumPreset, fills: usize, dpcm: bool)
    requires
        old(song).current_phrase < old(song).phrases@.len(),
    ensures
        final(song)@ == with_current(
            old(song)@,
            drum_grid(current(old(song)@), preset@, fills as nat, dpcm),
        ),
{
    let ghost p = preset@;
    let kick_mask: Vec<char> = text::chars_of(preset.kick);
    let snare_mask: Vec<char> = text::chars_of(preset.snare);
    let hat_mask: Vec<char> = text::chars_of(preset.hat);
    let open_mask: Vec<char> = text::chars_of(preset.open);
    let fill: Vec<bool> = gen::euclid_mask(
        if fills < 4 {
            fills
        } else {
            4
        },
        4,
        0,
    );
    let mut noise: [Cell; STEPS_PER_PHRASE] = blank_column();
    let mut samples: [Cell; STEPS_PER_PHRASE] = blank_column();
    for s in 0..STEPS_PER_PHRASE
        invariant
            p == preset@,
            kick_mask@ == p.kick,
            snare_mask@ == p.snare,
            hat_mask@ == p.hat,
            open_mask@ == p.open,
            fill@ == gen::euclid_pattern(
                if fills < 4 {
                    fills as nat
                } else {
                    4
                },
                4,
                0,
            ),
            forall|j: int|
                s <= j < STEPS_PER_PHRASE ==> #[trigger] noise@[j] == song::empty_cell(),
            forall|j: int|
                s <= j < STEPS_PER_PHRASE ==> #[trigger] samples@[j] == song::empty_cell(),
            dpcm ==> forall|j: int|
                0 <= j < s ==> #[trigger] noise@[j] == drum_hat_cell(p, fills as nat, j),
            dpcm ==> forall|j: int|
                0 <= j < s ==> #[trigger] samples@[j] == drum_dpcm_cell(p, fills as nat, j),
            !dpcm ==> forall|j: int|
                0 <= j < s ==> #[trigger] noise@[j] == drum_noise_cell(p, fills as nat, j),
    {
        let kick: bool = is_on(&kick_mask, s);
        let snare: bool = is_on(&snare_mask, s) || (fills > 0 && s >= 12 && fill[s - 12]);
        let hat: bool = is_on(&hat_mask, s);
        let open: bool = is_on(&open_mask, s);
        if dpcm {
            if snare {
                samples[s] = hit(61, 0, 15);
            } else if kick {
                samples[s] = hit(60, 0, 15);
            }
            if open {
                noise[s] = hit(55, 3, 12);
            } else if kick && snare {
                noise[s] = hit(36, 3, 15);
            } else if hat {
                noise[s] = hit(60, 3, 9);
            }
        } else {
            let vol: u8 = if hat && !kick && !snare {
                9
            } else {
                15
            };
            if kick {
                noise[s] = hit(36, 3, vol);
            } else if snare {
                noise[s] = hit(50, 3, vol);
            } else if open {
                noise[s] = hit(55, 3, vol);
            } else if hat {
                noise[s] = hit(60, 3, vol);
            }
        }
    }
    let cur: usize = song.current_phrase;
    let ghost before = song@.phrases;
    let mut ph: Phrase = song.phrases[cur];
    assert(current(song@) == ph@);
    if dpcm {
        assert(noise@ =~= Seq::new(
            STEPS_PER_PHRASE as nat,
            |s: int| drum_hat_cell(p, fills as nat, s),
        ));
        assert(samples@ =~= Seq::new(
            STEPS_PER_PHRASE as nat,
            |s: int| drum_dpcm_cell(p, fills as nat, s),
        ));
        put_channel(&mut ph, 3, &noise);
        put_channel(&mut ph, 4, &samples);
    } else {
        assert(noise@ =~= Seq::new(
            STEPS_PER_PHRASE as nat,
            |s: int| drum_noise_cell(p, fills as nat, s),
        ));
        put_channel(&mut ph, 3, &noise);
    }
    song.phrases[cur] = ph;
    assert(song@.phrases =~= before.update(cur as int, ph@));
}

} // verus!
