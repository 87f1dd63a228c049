//! A frame table turned into rows of cells.
//!
//! Notes are placed on the rows they are nearest to; then come the notes that
//! a slide reaches without striking them, the ends of effects, and the rows
//! a note is held through.

use vstd::prelude::*;

use crate::rip::clock;
use crate::rip::envelope;
use crate::rip::envelope::{EnvView, NoteEnv};
use crate::rip::pitch;
use crate::rip::pitch::Motion;
use crate::rip::trace;
use crate::rip::trace::{FrameTrace, DMC, NOI};
use crate::song;
use crate::song::{Cell, CHANNELS, STEPS_PER_PHRASE};

verus! {

// ---------------------------------------------------------------- rows

pub fn set_cell(rows: &mut Vec<[Cell; CHANNELS]>, r: usize, c: usize, x: Cell)
    requires
        r < old(rows)@.len(),
        c < CHANNELS,
    ensures
        song::row_views(final(rows)@) == song::put_cell(
            song::row_views(old(rows)@),
            r as int,
            c as int,
            x,
        ),
        final(rows)@.len() == old(rows)@.len(),
{
    let ghost before = song::row_views(rows@);
    let mut row: [Cell; CHANNELS] = rows[r];
    assert(before[r as int] == row@);
    row[c] = x;
    assert(row@ =~= before[r as int].update(c as int, x));
    rows.set(r, row);
    assert(song::row_views(rows@) =~= song::put_cell(before, r as int, c as int, x));
}

/// The cell of a row, in the rows' view.
pub proof fn lemma_cell(rows: Seq<[Cell; CHANNELS]>, r: int, c: int)
    requires
        0 <= r < rows.len(),
        0 <= c < CHANNELS,
    ensures
        song::row_views(rows)[r][c] == rows[r]@[c],
        song::row_views(rows).len() == rows.len(),
{
}

/// Rows without a note.
pub open spec fn blank_rows(n: nat) -> Seq<Seq<Cell>> {
    Seq::new(n, |r: int| Seq::new(CHANNELS as nat, |c: int| song::empty_cell()))
}

fn make_rows(n: usize) -> (r: Vec<[Cell; CHANNELS]>)
    ensures
        song::row_views(r@) == blank_rows(n as nat),
        r@.len() == n,
{
    let mut rows: Vec<[Cell; CHANNELS]> = Vec::new();
    for i in 0..n
        invariant
            rows@.len() == i,
            forall|k: int|
                0 <= k < i ==> (#[trigger] rows@[k])@ == Seq::new(
                    CHANNELS as nat,
                    |c: int| song::empty_cell(),
                ),
    {
        rows.push(song::empty_row());
    }
    assert(song::row_views(rows@) =~= blank_rows(n as nat));
    rows
}

// ---------------------------------------------------------------- struck notes

/// Where a note landed and what it played.
#[derive(Clone, Debug)]
pub struct Placed {
    pub row: usize,
    pub env: NoteEnv,
    /// Whether its pitch moved.
    pub moves: bool,
}

#[verifier::ext_equal]
pub struct PlacedView {
    pub row: usize,
    pub env: EnvView,
    pub moves: bool,
}

impl View for Placed {
    type V = PlacedView;

    open spec fn view(&self) -> PlacedView {
        PlacedView { row: self.row, env: self.env@, moves: self.moves }
    }
}

pub open spec fn placed_views(v: Seq<Placed>) -> Seq<PlacedView> {
    v.map_values(|p: Placed| p@)
}

/// Rows in the making.
#[verifier::ext_equal]
pub struct DraftView {
    pub rows: Seq<Seq<Cell>>,
    /// Sample addresses in order of first use.
    pub slots: Seq<u8>,
    pub placed: Seq<PlacedView>,
    pub unpitched: nat,
    pub collisions: nat,
}

/// Where an address stands, from `i` on, or the length.
pub open spec fn slot_at(slots: Seq<u8>, x: u8, i: nat) -> nat
    decreases slots.len() - i,
{
    if i >= slots.len() || slots[i as int] == x {
        i
    } else {
        slot_at(slots, x, i + 1)
    }
}

/// The sample address a frame starts.
pub open spec fn sample_of(f: FrameTrace) -> u8 {
    match f.dpcm {
        Some(s) => s,
        None => 0,
    }
}

/// The note a channel plays on a frame. A sample's note is its slot above
/// middle C.
pub open spec fn struck_note(f: FrameTrace, c: int, slots: Seq<u8>) -> Option<u8> {
    if c == DMC {
        let slot = slot_at(slots, sample_of(f), 0);
        Some(
            if slot > 67 {
                127
            } else {
                (60 + slot) as u8
            },
        )
    } else if c == NOI {
        Some(pitch::noise_pitch(f.ch@[c].period))
    } else {
        pitch::pitch_of(c as usize, f.ch@[c].period)
    }
}

/// The addresses known after a channel has played on a frame.
pub open spec fn slots_after(f: FrameTrace, c: int, slots: Seq<u8>) -> Seq<u8> {
    if c == DMC && slot_at(slots, sample_of(f), 0) >= slots.len() {
        slots.push(sample_of(f))
    } else {
        slots
    }
}

/// One channel of one entry: a note that is heard goes on its row, unless it
/// has no pitch or the row is taken.
pub open spec fn strike(
    d: DraftView,
    t: Seq<FrameTrace>,
    starts: Seq<u32>,
    i: int,
    c: int,
) -> DraftView {
    let f = t[i];
    if !trace::strikes(f, c) {
        d
    } else {
        let r = clock::nearest_index(starts, f.frame) as int;
        let slots = slots_after(f, c, d.slots);
        match struck_note(f, c, d.slots) {
            None => DraftView { slots, unpitched: d.unpitched + 1, ..d },
            Some(n) => if d.rows[r][c].note is Some {
                DraftView { slots, collisions: d.collisions + 1, ..d }
            } else {
                let m = pitch::motion(pitch::played_periods(t, c, f.frame), c as usize);
                DraftView {
                    rows: song::put_cell(
                        d.rows,
                        r,
                        c,
                        Cell {
                            note: Some(n),
                            instr: 0,
                            vol: envelope::volume_for(f.ch@[c].level),
                            fx: pitch::effect(m),
                            hold: false,
                        },
                    ),
                    slots,
                    placed: d.placed.push(
                        PlacedView {
                            row: r as usize,
                            env: EnvView {
                                ch: c as usize,
                                duty: f.ch@[c].duty,
                                levels: pitch::played_levels(t, c, f.frame),
                            },
                            moves: m !is Steady,
                        },
                    ),
                    ..d
                }
            },
        }
    }
}

/// The first `c` channels of one entry.
pub open spec fn frame_strikes(
    d: DraftView,
    t: Seq<FrameTrace>,
    starts: Seq<u32>,
    i: int,
    c: nat,
) -> DraftView
    decreases c,
{
    if c == 0 {
        d
    } else {
        strike(frame_strikes(d, t, starts, i, (c - 1) as nat), t, starts, i, c - 1)
    }
}

/// The first `k` entries.
pub open spec fn struck(t: Seq<FrameTrace>, starts: Seq<u32>, k: nat) -> DraftView
    decreases k,
{
    if k == 0 {
        DraftView {
            rows: blank_rows(starts.len()),
            slots: Seq::empty(),
            placed: Seq::empty(),
            unpitched: 0,
            collisions: 0,
        }
    } else {
        frame_strikes(
            struck(t, starts, (k - 1) as nat),
            t,
            starts,
            k - 1,
            CHANNELS as nat,
        )
    }
}

struct Draft {
    rows: Vec<[Cell; CHANNELS]>,
    slots: Vec<u8>,
    placed: Vec<Placed>,
    unpitched: u64,
    collisions: u64,
}

impl View for Draft {
    type V = DraftView;

    closed spec fn view(&self) -> DraftView {
        DraftView {
            rows: song::row_views(self.rows@),
            slots: self.slots@,
            placed: placed_views(self.placed@),
            unpitched: self.unpitched as nat,
            collisions: self.collisions as nat,
        }
    }
}

/// Every placed note is on a row and a channel.
spec fn placed_within(p: Seq<PlacedView>, rows: nat) -> bool {
    forall|k: int|
        0 <= k < p.len() ==> (#[trigger] p[k]).row < rows && p[k].env.ch < CHANNELS
            && p[k].env.levels.len() <= 120
}

fn find_slot(slots: &Vec<u8>, x: u8) -> (r: usize)
    ensures
        r == slot_at(slots@, x, 0),
        r <= slots@.len(),
{
    let mut i: usize = 0;
    while i < slots.len() && slots[i] != x
        invariant
            i <= slots@.len(),
            slot_at(slots@, x, 0) == slot_at(slots@, x, i as nat),
        decreases slots@.len() - i,
    {
        i += 1;
    }
    i
}

/// The note a channel plays on a frame; a new sample gets a slot.
fn name_note(f: &FrameTrace, c: usize, slots: &mut Vec<u8>) -> (r: Option<u8>)
    requires
        c < CHANNELS,
    ensures
        r == struck_note(*f, c as int, old(slots)@),
        final(slots)@ == slots_after(*f, c as int, old(slots)@),
{
    if c == DMC {
        let s: u8 = match f.dpcm {
            Some(s) => s,
            None => 0,
        };
        let slot: usize = find_slot(slots, s);
        if slot >= slots.len() {
            slots.push(s);
        }
        Some(
            if slot > 67 {
                127
            } else {
                60 + slot as u8
            },
        )
    } else if c == NOI {
        Some(pitch::noise_note(f.ch[c].period))
    } else {
        pitch::note_of(c, f.ch[c].period)
    }
}

fn place(d: &mut Draft, p: Placed)
    ensures
        final(d)@ == (DraftView { placed: old(d)@.placed.push(p@), ..old(d)@ }),
        final(d).rows@ == old(d).rows@,
{
    let ghost before = d.placed@;
    d.placed.push(p);
    assert(placed_views(d.placed@) =~= placed_views(before).push(p@));
}

fn strike_one(d: &mut Draft, t: &[FrameTrace], starts: &Vec<u32>, i: usize, c: usize)
    requires
        i < t@.len(),
        c < CHANNELS,
        clock::climbing(starts@),
        starts@.len() > 0,
        old(d)@.rows.len() == starts@.len(),
        placed_within(old(d)@.placed, starts@.len()),
        old(d)@.unpitched + old(d)@.collisions < u64::MAX,
    ensures
        final(d)@ == strike(old(d)@, t@, starts@, i as int, c as int),
        final(d)@.rows.len() == starts@.len(),
        placed_within(final(d)@.placed, starts@.len()),
        final(d)@.unpitched + final(d)@.collisions <= old(d)@.unpitched + old(d)@.collisions + 1,
{
    let f: FrameTrace = t[i];
    if !trace::does_strike(&f, c) {
        return;
    }
    let r: usize = clock::nearest_row(starts, f.frame);
    let ghost was = d@;
    assert(d.rows@.len() == was.rows.len());
    let note: Option<u8> = name_note(&f, c, &mut d.slots);
    match note {
        None => {
            d.unpitched = d.unpitched + 1;
        },
        Some(n) => {
            proof {
                lemma_cell(d.rows@, r as int, c as int);
            }
            if d.rows[r][c].note.is_some() {
                d.collisions = d.collisions + 1;
                return;
            }
            let ps: Vec<u16> = pitch::periods_played(t, c, f.frame);
            let m: Motion = pitch::classify(&ps, c);
            set_cell(
                &mut d.rows,
                r,
                c,
                Cell {
                    note: Some(n),
                    instr: 0,
                    vol: envelope::cell_volume(f.ch[c].level),
                    fx: m.fx(),
                    hold: false,
                },
            );
            let moves: bool = match m {
                Motion::Steady => false,
                _ => true,
            };
            let p: Placed = Placed {
                row: r,
                env: NoteEnv { ch: c, duty: f.ch[c].duty, levels: pitch::played(t, c, f.frame) },
                moves,
            };
            place(d, p);
            assert(d@ =~= strike(was, t@, starts@, i as int, c as int));
        },
    }
}

fn strike_all(t: &[FrameTrace], starts: &Vec<u32>) -> (r: Draft)
    requires
        trace::in_order(t@),
        clock::climbing(starts@),
        starts@.len() > 0,
    ensures
        r@ == struck(t@, starts@, t@.len()),
        r@.rows.len() == starts@.len(),
        placed_within(r@.placed, starts@.len()),
{
    let mut d: Draft = Draft {
        rows: make_rows(starts.len()),
        slots: Vec::new(),
        placed: Vec::new(),
        unpitched: 0,
        collisions: 0,
    };
    assert(d@ =~= struck(t@, starts@, 0));
    for i in 0..t.len()
        invariant
            trace::in_order(t@),
            clock::climbing(starts@),
            starts@.len() > 0,
            d@ == struck(t@, starts@, i as nat),
            d@.rows.len() == starts@.len(),
            placed_within(d@.placed, starts@.len()),
            d@.unpitched + d@.collisions <= 5 * i,
    {
        let ghost base = d@;
        for c in 0..CHANNELS
            invariant
                i < t@.len(),
                trace::in_order(t@),
                clock::climbing(starts@),
                starts@.len() > 0,
                d@ == frame_strikes(base, t@, starts@, i as int, c as nat),
                d@.rows.len() == starts@.len(),
                placed_within(d@.placed, starts@.len()),
                d@.unpitched + d@.collisions <= 5 * i + c,
        {
            strike_one(&mut d, t, starts, i, c);
        }
    }
    d
}

// ---------------------------------------------------------------- slide targets

/// The periods sounded by the first `k` entries between two frames.
pub open spec fn periods_between(
    t: Seq<FrameTrace>,
    c: int,
    from: u32,
    to: u32,
    k: nat,
) -> Seq<u16>
    decreases k,
{
    if k == 0 {
        Seq::empty()
    } else {
        let before = periods_between(t, c, from, to, (k - 1) as nat);
        let f = t[k - 1];
        if from <= f.frame < to && f.ch@[c].level > 0 {
            before.push(f.ch@[c].period)
        } else {
            before
        }
    }
}

/// The periods sounded inside one row; none for a row that does not exist.
pub open spec fn periods_in(t: Seq<FrameTrace>, c: int, starts: Seq<u32>, r: int) -> Seq<u16> {
    if r < 0 || r >= starts.len() {
        Seq::empty()
    } else {
        periods_between(
            t,
            c,
            starts[r],
            if r + 1 < starts.len() {
                starts[r + 1]
            } else {
                u32::MAX
            },
            t.len(),
        )
    }
}

pub fn row_periods(t: &[FrameTrace], c: usize, starts: &Vec<u32>, r: usize) -> (p: Vec<u16>)
    requires
        c < CHANNELS,
    ensures
        p@ == periods_in(t@, c as int, starts@, r as int),
{
    let mut out: Vec<u16> = Vec::new();
    let n: usize = starts.len();
    if r >= n {
        return out;
    }
    let from: u32 = starts[r];
    let to: u32 = if r + 1 < n {
        starts[r + 1]
    } else {
        u32::MAX
    };
    for i in 0..t.len()
        invariant
            c < CHANNELS,
            out@ == periods_between(t@, c as int, from, to, i as nat),
    {
        let f: FrameTrace = t[i];
        if from <= f.frame && f.frame < to && f.ch[c].level > 0 {
            out.push(f.ch[c].period);
        }
    }
    out
}

/// The level on the first entry, from `i` on, of a frame.
pub open spec fn level_on(t: Seq<FrameTrace>, c: int, frame: u32, i: nat) -> u8
    decreases t.len() - i,
{
    if i >= t.len() {
        0
    } else if t[i as int].frame == frame {
        t[i as int].ch@[c].level
    } else {
        level_on(t, c, frame, i + 1)
    }
}

fn find_level(t: &[FrameTrace], c: usize, frame: u32) -> (r: u8)
    requires
        c < CHANNELS,
    ensures
        r == level_on(t@, c as int, frame, 0),
{
    let mut i: usize = 0;
    while i < t.len()
        invariant
            c < CHANNELS,
            i <= t@.len(),
            level_on(t@, c as int, frame, 0) == level_on(t@, c as int, frame, i as nat),
        decreases t@.len() - i,
    {
        if t[i].frame == frame {
            return t[i].ch[c].level;
        }
        i += 1;
    }
    0
}

/// The lowest of the first `k` notes.
pub open spec fn lowest(v: Seq<u8>, k: nat) -> Option<u8>
    decreases k,
{
    if k == 0 {
        None
    } else {
        match lowest(v, (k - 1) as nat) {
            Some(b) => if v[k - 1] < b {
                Some(v[k - 1])
            } else {
                Some(b)
            },
            None => Some(v[k - 1]),
        }
    }
}

fn find_lowest(p: &Vec<u16>, c: usize) -> (r: Option<u8>)
    ensures
        ({
            let v = pitch::pitches(p@, c, p@.len());
            r == lowest(v, v.len())
        }),
{
    let v: Vec<u8> = pitch::pitches_of(p, c);
    let mut b: Option<u8> = None;
    for i in 0..v.len()
        invariant
            b == lowest(v@, i as nat),
    {
        b = match b {
            Some(x) => if v[i] < x {
                Some(v[i])
            } else {
                Some(x)
            },
            None => Some(v[i]),
        };
    }
    b
}

/// A distance that fits in a byte, or the largest that does.
pub open spec fn slide_speed(a: u16, b: u16) -> u8 {
    let d = pitch::distance(a, b);
    if d > 255 {
        255
    } else {
        d as u8
    }
}

fn find_speed(a: u16, b: u16) -> (r: u8)
    ensures
        r == slide_speed(a, b),
{
    let d: u16 = if a > b {
        a - b
    } else {
        b - a
    };
    if d > 255 {
        255
    } else {
        d as u8
    }
}

/// The note and effect that a row without a struck note shows, where its
/// pitch moved: an arpeggio on its root, or a slide to the pitch that the row
/// ends on.
pub open spec fn moved_to(
    t: Seq<FrameTrace>,
    c: int,
    starts: Seq<u32>,
    r: int,
    sounding: Option<u8>,
) -> Option<(u8, (u8, u8))> {
    let ps = periods_in(t, c, starts, r);
    if ps.len() < 2 || level_on(t, c, starts[r], 0) == 0 || sounding is None {
        None
    } else {
        match pitch::motion(ps + periods_in(t, c, starts, r + 1), c as usize) {
            Motion::Arpeggio { x, y } => {
                let v = pitch::pitches(ps, c as usize, ps.len());
                match lowest(v, v.len()) {
                    Some(n) => Some((n, (0x41, (x * 16 + y) as u8))),
                    None => None,
                }
            },
            _ => match pitch::pitch_of(c as usize, ps.last()) {
                Some(now) => if sounding == Some(now) {
                    None
                } else {
                    let prev = periods_in(t, c, starts, r - 1);
                    let before = if prev.len() > 0 {
                        prev.last()
                    } else {
                        ps[0]
                    };
                    Some((now, (0x53, slide_speed(ps[0], before))))
                },
                None => None,
            },
        }
    }
}

fn find_move(
    t: &[FrameTrace],
    c: usize,
    starts: &Vec<u32>,
    r: usize,
    sounding: Option<u8>,
) -> (m: Option<(u8, (u8, u8))>)
    requires
        c < CHANNELS,
        r < starts@.len(),
    ensures
        m == moved_to(t@, c as int, starts@, r as int, sounding),
{
    let ps: Vec<u16> = row_periods(t, c, starts, r);
    let held: u8 = match sounding {
        Some(n) => n,
        None => {
            return None;
        },
    };
    if ps.len() < 2 || find_level(t, c, starts[r]) == 0 {
        return None;
    }
    let n: usize = starts.len();
    assert(r < n);
    let next: Vec<u16> = row_periods(t, c, starts, r + 1);
    let mut wide: Vec<u16> = Vec::new();
    for i in 0..ps.len()
        invariant
            wide@ == ps@.take(i as int),
    {
        wide.push(ps[i]);
    }
    for i in 0..next.len()
        invariant
            wide@ == ps@ + next@.take(i as int),
    {
        wide.push(next[i]);
        assert(wide@ =~= ps@ + next@.take(i + 1));
    }
    assert(wide@ =~= ps@ + next@);
    match pitch::classify(&wide, c) {
        Motion::Arpeggio { x, y } => match find_lowest(&ps, c) {
            Some(n) => Some((n, (0x41, x * 16 + y))),
            None => None,
        },
        _ => match pitch::note_of(c, ps[ps.len() - 1]) {
            Some(now) => {
                if held == now {
                    return None;
                }
                let mut before: u16 = ps[0];
                if r > 0 {
                    let prev: Vec<u16> = row_periods(t, c, starts, r - 1);
                    if prev.len() > 0 {
                        before = prev[prev.len() - 1];
                    }
                }
                Some((now, (0x53, find_speed(ps[0], before))))
            },
            None => None,
        },
    }
}

/// A channel's rows while slide targets are added.
#[verifier::ext_equal]
pub struct Slides {
    pub rows: Seq<Seq<Cell>>,
    pub placed: Seq<PlacedView>,
    pub sounding: Option<u8>,
    pub active: Option<(u8, u8)>,
}

/// One row: a struck note is taken up; a new pitch or effect is written.
pub open spec fn slide_step(
    s: Slides,
    t: Seq<FrameTrace>,
    c: int,
    starts: Seq<u32>,
    r: int,
) -> Slides {
    if s.rows[r][c].note is Some {
        Slides { sounding: s.rows[r][c].note, active: s.rows[r][c].fx, ..s }
    } else {
        match moved_to(t, c, starts, r, s.sounding) {
            None => s,
            Some((n, fx)) => if s.sounding == Some(n) && s.active == Some(fx) {
                s
            } else {
                Slides {
                    rows: song::put_cell(
                        s.rows,
                        r,
                        c,
                        Cell {
                            note: Some(n),
                            instr: 0,
                            vol: envelope::volume_for(level_on(t, c, starts[r], 0)),
                            fx: Some(fx),
                            hold: false,
                        },
                    ),
                    placed: s.placed.push(
                        PlacedView {
                            row: r as usize,
                            env: EnvView {
                                ch: c as usize,
                                duty: 2,
                                levels: pitch::played_levels(t, c, starts[r]),
                            },
                            moves: false,
                        },
                    ),
                    sounding: Some(n),
                    active: Some(fx),
                }
            },
        }
    }
}

/// The first `k` rows of a channel.
pub open spec fn slides_on(
    d: DraftView,
    t: Seq<FrameTrace>,
    c: int,
    starts: Seq<u32>,
    k: nat,
) -> Slides
    decreases k,
{
    if k == 0 {
        Slides { rows: d.rows, placed: d.placed, sounding: None, active: None }
    } else {
        slide_step(slides_on(d, t, c, starts, (k - 1) as nat), t, c, starts, k - 1)
    }
}

/// The first `c` channels.
pub open spec fn slid(d: DraftView, t: Seq<FrameTrace>, starts: Seq<u32>, c: nat) -> DraftView
    decreases c,
{
    if c == 0 {
        d
    } else {
        let before = slid(d, t, starts, (c - 1) as nat);
        let s = slides_on(before, t, c - 1, starts, starts.len());
        DraftView { rows: s.rows, placed: s.placed, ..before }
    }
}

fn slide_channel(d: &mut Draft, t: &[FrameTrace], c: usize, starts: &Vec<u32>)
    requires
        c < CHANNELS,
        old(d)@.rows.len() == starts@.len(),
        placed_within(old(d)@.placed, starts@.len()),
    ensures
        ({
            let s = slides_on(old(d)@, t@, c as int, starts@, starts@.len());
            final(d)@ == (DraftView { rows: s.rows, placed: s.placed, ..old(d)@ })
        }),
        final(d)@.rows.len() == starts@.len(),
        placed_within(final(d)@.placed, starts@.len()),
{
    let ghost base = d@;
    let mut sounding: Option<u8> = None;
    let mut active: Option<(u8, u8)> = None;
    for r in 0..starts.len()
        invariant
            c < CHANNELS,
            d@.rows.len() == starts@.len(),
            placed_within(d@.placed, starts@.len()),
            d@.slots == base.slots,
            d@.unpitched == base.unpitched,
            d@.collisions == base.collisions,
            (Slides { rows: d@.rows, placed: d@.placed, sounding, active }) == slides_on(
                base,
                t@,
                c as int,
                starts@,
                r as nat,
            ),
    {
        assert(d.rows@.len() == d@.rows.len());
        proof {
            lemma_cell(d.rows@, r as int, c as int);
        }
        let ghost now = Slides { rows: d@.rows, placed: d@.placed, sounding, active };
        let here: Cell = d.rows[r][c];
        if here.note.is_some() {
            sounding = here.note;
            active = here.fx;
        } else {
            match find_move(t, c, starts, r, sounding) {
                None => {},
                Some((n, fx)) => {
                    if !(song::same_note(sounding, Some(n)) && song::same_fx(active, Some(fx))) {
                        let vol: u8 = envelope::cell_volume(find_level(t, c, starts[r]));
                        set_cell(
                            &mut d.rows,
                            r,
                            c,
                            Cell { note: Some(n), instr: 0, vol, fx: Some(fx), hold: false },
                        );
                        let p: Placed = Placed {
                            row: r,
                            env: NoteEnv { ch: c, duty: 2, levels: pitch::played(t, c, starts[r]) },
                            moves: false,
                        };
                        place(d, p);
                        sounding = Some(n);
                        active = Some(fx);
                    }
                },
            }
        }
        assert((Slides { rows: d@.rows, placed: d@.placed, sounding, active }) =~= slide_step(
            now,
            t@,
            c as int,
            starts@,
            r as int,
        ));
    }
}

// ---------------------------------------------------------------- effects that end

/// A channel's rows while the ends of effects are written.
#[verifier::ext_equal]
pub struct Ends {
    pub rows: Seq<Seq<Cell>>,
    pub active: Option<(u8, u8)>,
}

/// One row: a plain note after a modulated one switches the effect off.
pub open spec fn end_step(s: Ends, c: int, r: int) -> Ends {
    let x = s.rows[r][c];
    if x.note is None {
        s
    } else {
        match x.fx {
            Some(f) => Ends {
                active: if f.1 == 0 {
                    None
                } else {
                    Some(f)
                },
                ..s
            },
            None => match s.active {
                Some(f) => Ends {
                    rows: song::put_cell(s.rows, r, c, Cell { fx: Some((f.0, 0u8)), ..x }),
                    active: None,
                },
                None => s,
            },
        }
    }
}

/// The first `k` rows of a channel.
pub open spec fn ends_on(rows: Seq<Seq<Cell>>, c: int, k: nat) -> Ends
    decreases k,
{
    if k == 0 {
        Ends { rows, active: None }
    } else {
        end_step(ends_on(rows, c, (k - 1) as nat), c, k - 1)
    }
}

/// The first `c` channels.
pub open spec fn ended(rows: Seq<Seq<Cell>>, c: nat) -> Seq<Seq<Cell>>
    decreases c,
{
    if c == 0 {
        rows
    } else {
        ends_on(ended(rows, (c - 1) as nat), c - 1, rows.len()).rows
    }
}

fn end_channel(rows: &mut Vec<[Cell; CHANNELS]>, c: usize)
    requires
        c < CHANNELS,
    ensures
        song::row_views(final(rows)@) == ends_on(
            song::row_views(old(rows)@),
            c as int,
            old(rows)@.len(),
        ).rows,
        final(rows)@.len() == old(rows)@.len(),
{
    let ghost base = song::row_views(rows@);
    let n: usize = rows.len();
    let mut active: Option<(u8, u8)> = None;
    for r in 0..n
        invariant
            c < CHANNELS,
            rows@.len() == n,
            (Ends { rows: song::row_views(rows@), active }) == ends_on(base, c as int, r as nat),
    {
        proof {
            lemma_cell(rows@, r as int, c as int);
        }
        let x: Cell = rows[r][c];
        if x.note.is_some() {
            match x.fx {
                Some(f) => {
                    active = if f.1 == 0 {
                        None
                    } else {
                        Some(f)
                    };
                },
                None => {
                    if let Some(f) = active {
                        set_cell(
                            rows,
                            r,
                            c,
                            Cell {
                                note: x.note,
                                instr: x.instr,
                                vol: x.vol,
                                fx: Some((f.0, 0)),
                                hold: x.hold,
                            },
                        );
                        active = None;
                    }
                },
            }
        }
    }
}

// ---------------------------------------------------------------- held notes

/// Whether a channel is heard on some entry between two frames.
pub open spec fn audible(t: Seq<FrameTrace>, c: int, from: int, to: int) -> bool {
    exists|i: int|
        0 <= i < t.len() && from <= (#[trigger] t[i]).frame < to && t[i].ch@[c].level > 0
}

/// Whether a note is still sounding when the next row begins: it is heard in
/// this row and in the next. Nothing is held across the last row.
pub open spec fn spans(t: Seq<FrameTrace>, c: int, starts: Seq<u32>, r: int) -> bool {
    r + 1 < starts.len() && audible(t, c, starts[r] as int, starts[r + 1] as int) && audible(
        t,
        c,
        starts[r + 1] as int,
        if r + 2 < starts.len() {
            starts[r + 2] as int
        } else {
            starts[r + 1] + 1
        },
    )
}

fn is_audible(t: &[FrameTrace], c: usize, from: u64, to: u64) -> (r: bool)
    requires
        c < CHANNELS,
    ensures
        r == audible(t@, c as int, from as int, to as int),
{
    for i in 0..t.len()
        invariant
            c < CHANNELS,
            forall|j: int|
                0 <= j < i ==> !(from <= (#[trigger] t@[j]).frame < to && t@[j].ch@[c as int].level
                    > 0),
    {
        let f: FrameTrace = t[i];
        if from <= f.frame as u64 && (f.frame as u64) < to && f.ch[c].level > 0 {
            assert(t@[i as int] == f);
            return true;
        }
    }
    false
}

pub fn spans_row(t: &[FrameTrace], c: usize, starts: &Vec<u32>, r: usize) -> (b: bool)
    requires
        c < CHANNELS,
        r < starts@.len(),
    ensures
        b == spans(t@, c as int, starts@, r as int),
{
    let n: usize = starts.len();
    if r + 1 >= n {
        return false;
    }
    let next: u64 = starts[r + 1] as u64;
    let after: u64 = if n - (r + 1) > 1 {
        starts[r + 2] as u64
    } else {
        next + 1
    };
    is_audible(t, c, starts[r] as u64, next) && is_audible(t, c, next, after)
}

/// A channel's rows while sustains are written.
#[verifier::ext_equal]
pub struct Holds {
    pub rows: Seq<Seq<Cell>>,
    pub sounding: bool,
    pub holds: nat,
}

/// One row: a note starts sounding, and a row without one either holds it or
/// ends it.
pub open spec fn hold_step(
    s: Holds,
    t: Seq<FrameTrace>,
    c: int,
    starts: Seq<u32>,
    r: int,
) -> Holds {
    if s.rows[r][c].note is Some {
        Holds { sounding: true, ..s }
    } else if s.sounding && spans(t, c, starts, r) {
        Holds {
            rows: song::put_cell(s.rows, r, c, song::hold_cell()),
            sounding: true,
            holds: s.holds + 1,
        }
    } else {
        Holds { sounding: false, ..s }
    }
}

/// The first `k` rows of a channel.
pub open spec fn holds_on(
    rows: Seq<Seq<Cell>>,
    t: Seq<FrameTrace>,
    c: int,
    starts: Seq<u32>,
    k: nat,
) -> Holds
    decreases k,
{
    if k == 0 {
        Holds { rows, sounding: false, holds: 0 }
    } else {
        hold_step(holds_on(rows, t, c, starts, (k - 1) as nat), t, c, starts, k - 1)
    }
}

/// The first `c` channels, and how many rows they hold. A sample is not held.
pub open spec fn held(
    rows: Seq<Seq<Cell>>,
    t: Seq<FrameTrace>,
    starts: Seq<u32>,
    c: nat,
) -> (Seq<Seq<Cell>>, nat)
    decreases c,
{
    if c == 0 {
        (rows, 0)
    } else {
        let (before, n) = held(rows, t, starts, (c - 1) as nat);
        let s = holds_on(before, t, c - 1, starts, starts.len());
        (s.rows, n + s.holds)
    }
}

fn hold_channel(
    rows: &mut Vec<[Cell; CHANNELS]>,
    t: &[FrameTrace],
    c: usize,
    starts: &Vec<u32>,
) -> (n: u64)
    requires
        c < CHANNELS,
        old(rows)@.len() == starts@.len(),
    ensures
        ({
            let s = holds_on(
                song::row_views(old(rows)@),
                t@,
                c as int,
                starts@,
                starts@.len(),
            );
            song::row_views(final(rows)@) == s.rows && n == s.holds
        }),
        final(rows)@.len() == starts@.len(),
        n <= starts@.len(),
{
    let ghost base = song::row_views(rows@);
    let mut sounding: bool = false;
    let mut n: u64 = 0;
    for r in 0..starts.len()
        invariant
            c < CHANNELS,
            rows@.len() == starts@.len(),
            n <= r,
            (Holds { rows: song::row_views(rows@), sounding, holds: n as nat }) == holds_on(
                base,
                t@,
                c as int,
                starts@,
                r as nat,
            ),
    {
        proof {
            lemma_cell(rows@, r as int, c as int);
        }
        if rows[r][c].note.is_some() {
            sounding = true;
        } else if sounding {
            if spans_row(t, c, starts, r) {
                set_cell(rows, r, c, Cell::hold());
                n += 1;
            } else {
                sounding = false;
            }
        }
    }
    n
}

// ---------------------------------------------------------------- the end of the song

/// A row in which nothing starts and nothing is held.
pub open spec fn is_still(row: Seq<Cell>) -> bool {
    forall|c: int| 0 <= c < CHANNELS ==> (#[trigger] row[c]).note is None && !row[c].hold
}

/// How many rows are left of `n` without the still ones at the end; a phrase
/// at least, where there are as many.
pub open spec fn music_len(rows: Seq<Seq<Cell>>, n: nat) -> nat
    decreases n,
{
    if n > STEPS_PER_PHRASE && is_still(rows[n - 1]) {
        music_len(rows, (n - 1) as nat)
    } else {
        n
    }
}

/// Whether the rows repeat with a period. The last row is always cut short,
/// so it is not compared.
pub open spec fn repeats(rows: Seq<Seq<Cell>>, p: nat) -> bool {
    forall|i: int| 0 <= i < rows.len() - (p + 1) ==> #[trigger] rows[i] == rows[i + p]
}

/// The least whole number of phrases, from `p` on, that rows repeat with.
pub open spec fn fold_at(rows: Seq<Seq<Cell>>, p: nat) -> Option<nat>
    decreases rows.len() + STEPS_PER_PHRASE - p,
{
    if p == 0 || p * 2 > rows.len() {
        None
    } else if repeats(rows, p) {
        Some(p)
    } else {
        fold_at(rows, p + STEPS_PER_PHRASE as nat)
    }
}

fn row_is_still(row: &[Cell; CHANNELS]) -> (r: bool)
    ensures
        r == is_still(row@),
{
    for c in 0..CHANNELS
        invariant
            forall|d: int| 0 <= d < c ==> (#[trigger] row@[d]).note is None && !row@[d].hold,
    {
        if row[c].note.is_some() || row[c].hold {
            assert(!is_still(row@)) by {
                assert(row@[c as int].note is Some || row@[c as int].hold);
            }
            return false;
        }
    }
    true
}

fn trim_tail(rows: &mut Vec<[Cell; CHANNELS]>)
    ensures
        ({
            let was = song::row_views(old(rows)@);
            song::row_views(final(rows)@) == was.take(music_len(was, was.len()) as int)
        }),
{
    let ghost was = song::row_views(rows@);
    let mut n: usize = rows.len();
    assert(was.len() == n);
    while n > STEPS_PER_PHRASE && row_is_still(&rows[n - 1])
        invariant
            n <= rows@.len(),
            was == song::row_views(rows@),
            was.len() == rows@.len(),
            music_len(was, was.len()) == music_len(was, n as nat),
        decreases n,
    {
        assert(was[n - 1] == rows@[n - 1]@);
        n -= 1;
    }
    if n > STEPS_PER_PHRASE {
        assert(was[n - 1] == rows@[n - 1]@);
    }
    rows.truncate(n);
    assert(song::row_views(rows@) =~= was.take(n as int));
}

fn does_repeat(rows: &Vec<[Cell; CHANNELS]>, p: usize) -> (r: bool)
    requires
        0 < p,
        p * 2 <= rows@.len(),
    ensures
        r == repeats(song::row_views(rows@), p as nat),
{
    let ghost v = song::row_views(rows@);
    let total: usize = rows.len();
    let n: usize = total - (p + 1);
    for i in 0..n
        invariant
            v == song::row_views(rows@),
            v.len() == rows@.len(),
            total == rows@.len(),
            n == total - (p + 1),
            forall|j: int| 0 <= j < i ==> #[trigger] v[j] == v[j + p],
    {
        assert(v[i as int] == rows@[i as int]@);
        assert(v[i + p] == rows@[i + p]@);
        if !song::same_row(&rows[i], &rows[i + p]) {
            assert(v[i as int] != v[i + p]);
            return false;
        }
    }
    true
}

/// Cuts rows back to one pass where they turn out to repeat.
pub fn fold_repeats(rows: &mut Vec<[Cell; CHANNELS]>) -> (r: Option<usize>)
    ensures
        ({
            let was = song::row_views(old(rows)@);
            match fold_at(was, STEPS_PER_PHRASE as nat) {
                Some(p) => r is Some && r->0 == p && p <= was.len()
                    && song::row_views(final(rows)@) == was.take(p as int),
                None => r is None && final(rows)@ == old(rows)@,
            }
        }),
{
    let ghost was = song::row_views(rows@);
    let n: usize = rows.len();
    assert(was.len() == n);
    let mut p: usize = STEPS_PER_PHRASE;
    while p <= n / 2
        invariant
            rows@ == old(rows)@,
            was == song::row_views(rows@),
            was.len() == n,
            rows@.len() == n,
            p > 0,
            p <= n / 2 + STEPS_PER_PHRASE,
            fold_at(was, STEPS_PER_PHRASE as nat) == fold_at(was, p as nat),
        decreases n + STEPS_PER_PHRASE - p,
    {
        if does_repeat(rows, p) {
            rows.truncate(p);
            assert(song::row_views(rows@) =~= was.take(p as int));
            return Some(p);
        }
        if n / 2 < STEPS_PER_PHRASE || p > n / 2 - STEPS_PER_PHRASE {
            assert(fold_at(was, (p + STEPS_PER_PHRASE) as nat) is None);
            return None;
        }
        p += STEPS_PER_PHRASE;
    }
    None
}

/// Rows that repeat are all found again in the pass that is kept: every row
/// but the last is the row a whole number of passes before it.
pub proof fn law_folding_keeps_the_music(rows: Seq<Seq<Cell>>, p: nat, i: int)
    requires
        p > 0,
        repeats(rows, p),
        0 <= i < rows.len() - 1,
    ensures
        rows[i] == rows[i % (p as int)],
    decreases i,
{
    if i < p {
        vstd::arithmetic::div_mod::lemma_small_mod(i as nat, p);
    } else {
        law_folding_keeps_the_music(rows, p, i - p);
        assert(rows[i - p] == rows[i - p + p]);
        vstd::arithmetic::div_mod::lemma_mod_sub_multiples_vanish(i, p as int);
    }
}

/// What is folded away is a repeat, and no shorter number of whole phrases
/// repeats.
pub proof fn law_fold_is_the_shortest(rows: Seq<Seq<Cell>>, q: nat)
    requires
        fold_at(rows, STEPS_PER_PHRASE as nat) is Some,
        q > 0,
        q % 16 == 0,
        q < fold_at(rows, STEPS_PER_PHRASE as nat)->0,
    ensures
        repeats(rows, fold_at(rows, STEPS_PER_PHRASE as nat)->0),
        !repeats(rows, q),
{
    lemma_fold(rows, STEPS_PER_PHRASE as nat, q);
}

proof fn lemma_fold(rows: Seq<Seq<Cell>>, p: nat, q: nat)
    requires
        fold_at(rows, p) is Some,
        p % 16 == 0,
        q % 16 == 0,
    ensures
        repeats(rows, fold_at(rows, p)->0),
        p <= q < fold_at(rows, p)->0 ==> !repeats(rows, q),
        p <= fold_at(rows, p)->0,
    decreases rows.len() + STEPS_PER_PHRASE - p,
{
    if !repeats(rows, p) {
        lemma_fold(rows, p + STEPS_PER_PHRASE as nat, q);
    }
}

// ---------------------------------------------------------------- all of it

/// The rows of a song and what was found on the way.
#[derive(Debug)]
pub struct Score {
    pub rows: Vec<[Cell; CHANNELS]>,
    pub placed: Vec<Placed>,
    /// Sample addresses in order of first use.
    pub slots: Vec<u8>,
    /// Notes without a pitch that has a name.
    pub unpitched: u64,
    /// Notes whose row was taken.
    pub collisions: u64,
    /// Notes found only because the pitch moved.
    pub slide_targets: u64,
    pub holds: u64,
    /// How many rows were kept, where they repeat.
    pub folded: Option<usize>,
}

#[verifier::ext_equal]
pub struct ScoreView {
    pub rows: Seq<Seq<Cell>>,
    pub placed: Seq<PlacedView>,
    pub slots: Seq<u8>,
    pub unpitched: nat,
    pub collisions: nat,
    pub slide_targets: nat,
    pub holds: nat,
    pub folded: Option<nat>,
}

impl View for Score {
    type V = ScoreView;

    open spec fn view(&self) -> ScoreView {
        ScoreView {
            rows: song::row_views(self.rows@),
            placed: placed_views(self.placed@),
            slots: self.slots@,
            unpitched: self.unpitched as nat,
            collisions: self.collisions as nat,
            slide_targets: self.slide_targets as nat,
            holds: self.holds as nat,
            folded: match self.folded {
                Some(p) => Some(p as nat),
                None => None,
            },
        }
    }
}

/// The rows of a frame table, given where they start.
pub open spec fn score_of(t: Seq<FrameTrace>, starts: Seq<u32>) -> ScoreView {
    let d = struck(t, starts, t.len());
    let s = slid(d, t, starts, NOI as nat);
    let (rows, holds) = held(ended(s.rows, CHANNELS as nat), t, starts, DMC as nat);
    let music = rows.take(music_len(rows, rows.len()) as int);
    let folded = fold_at(music, STEPS_PER_PHRASE as nat);
    ScoreView {
        rows: match folded {
            Some(p) => music.take(p as int),
            None => music,
        },
        placed: s.placed,
        slots: s.slots,
        unpitched: s.unpitched,
        collisions: s.collisions,
        slide_targets: (s.placed.len() - d.placed.len()) as nat,
        holds,
        folded,
    }
}

/// Turns a frame table into rows.
pub fn transcribe(t: &[FrameTrace], starts: &Vec<u32>) -> (r: Score)
    requires
        trace::in_order(t@),
        clock::climbing(starts@),
        starts@.len() > 0,
        starts@.len() <= 0x1_0000_0000,
    ensures
        r@ == score_of(t@, starts@),
        forall|k: int| 0 <= k < r.placed@.len() ==> (#[trigger] r.placed@[k]).env.ch < CHANNELS,
{
    let mut d: Draft = strike_all(t, starts);
    let ghost first = d@;
    let count: usize = d.placed.len();
    assert(placed_views(d.placed@).len() == d.placed@.len());
    for c in 0..NOI
        invariant
            d@ == slid(first, t@, starts@, c as nat),
            d@.rows.len() == starts@.len(),
            placed_within(d@.placed, starts@.len()),
            d@.placed.len() >= count,
    {
        proof {
            lemma_slides_grow(d@, t@, c as int, starts@, starts@.len());
        }
        slide_channel(&mut d, t, c, starts);
    }
    let ghost s = d@;
    assert(placed_views(d.placed@).len() == d.placed@.len());
    let slide_targets: u64 = (d.placed.len() - count) as u64;
    let mut rows: Vec<[Cell; CHANNELS]> = d.rows;
    assert(song::row_views(rows@) == s.rows);
    assert(rows@.len() == s.rows.len());
    for c in 0..CHANNELS
        invariant
            rows@.len() == s.rows.len(),
            song::row_views(rows@) == ended(s.rows, c as nat),
    {
        end_channel(&mut rows, c);
    }
    let ghost e = song::row_views(rows@);
    let mut holds: u64 = 0;
    for c in 0..DMC
        invariant
            rows@.len() == starts@.len(),
            starts@.len() <= 0x1_0000_0000,
            holds <= c * 0x1_0000_0000,
            (song::row_views(rows@), holds as nat) == held(e, t@, starts@, c as nat),
    {
        let n: u64 = hold_channel(&mut rows, t, c, starts);
        holds += n;
    }
    trim_tail(&mut rows);
    let folded: Option<usize> = fold_repeats(&mut rows);
    let r: Score = Score {
        rows,
        placed: d.placed,
        slots: d.slots,
        unpitched: d.unpitched,
        collisions: d.collisions,
        slide_targets,
        holds,
        folded,
    };
    assert(r@ =~= score_of(t@, starts@));
    assert forall|k: int| 0 <= k < r.placed@.len() implies (#[trigger] r.placed@[k]).env.ch
        < CHANNELS by {
        assert(s.placed[k] == r.placed@[k]@);
    }
    r
}

proof fn lemma_slides_grow(d: DraftView, t: Seq<FrameTrace>, c: int, starts: Seq<u32>, k: nat)
    ensures
        slides_on(d, t, c, starts, k).placed.len() >= d.placed.len(),
    decreases k,
{
    if k > 0 {
        lemma_slides_grow(d, t, c, starts, (k - 1) as nat);
    }
}

} // verus!
