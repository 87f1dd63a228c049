//! Arranging a MIDI file as a song, by a map.

use vstd::prelude::*;

use crate::binary;
use crate::import::smf::{Midi, MidiNote, MidiTrack, MidiView, TrackView};
use crate::import::vmap::{DrumTarget, ImportMap, MapView, TrackMap, TrackMapView};
use crate::import::{smf, vmap};
use crate::song;
use crate::song::{Cell, Instrument, Phrase, Song, SongView, CHANNELS, INSTRUMENTS};
use crate::song::STEPS_PER_PHRASE;
use crate::style::compose;
use crate::text;

verus! {

/// Why a file cannot be arranged.
#[derive(Clone, Copy, Debug, PartialEq, Eq, Structural)]
pub enum ImportError {
    /// No track with notes has the name that this `@track` line asks for.
    NoTrack(usize),
    /// More different phrases than a song file holds.
    TooManyPhrases(usize),
}

// ---------------------------------------------------------------- rows

/// The row nearest to a tick.
pub open spec fn row_of(tick: u64, row_ticks: nat) -> nat {
    ((2 * tick + row_ticks) / (2 * row_ticks) as int) as nat
}

/// How many rows a length covers, at least one.
pub open spec fn rows_of(len: u64, row_ticks: nat) -> nat {
    if row_of(len, row_ticks) < 1 {
        1
    } else {
        row_of(len, row_ticks)
    }
}

/// The row after the last of the first `k` notes.
pub open spec fn last_end(notes: Seq<MidiNote>, rt: nat, k: nat) -> nat
    decreases k,
{
    if k == 0 {
        0
    } else {
        let before = last_end(notes, rt, (k - 1) as nat);
        let end = row_of(notes[k - 1].tick, rt) + rows_of(notes[k - 1].len, rt);
        if end > before {
            end
        } else {
            before
        }
    }
}

/// The row after the last note of the first `k` tracks.
pub open spec fn span_of(tracks: Seq<TrackView>, rt: nat, k: nat) -> nat
    decreases k,
{
    if k == 0 {
        0
    } else {
        let before = span_of(tracks, rt, (k - 1) as nat);
        let end = last_end(tracks[k - 1].notes, rt, tracks[k - 1].notes.len());
        if end > before {
            end
        } else {
            before
        }
    }
}

pub open spec fn row_ticks(m: MidiView) -> nat {
    (m.ticks_per_quarter / 4) as nat
}

pub open spec fn span(m: MidiView) -> nat {
    span_of(m.tracks, row_ticks(m), m.tracks.len())
}

/// What a file and a map must have for the file to be arranged: a row is at
/// least one tick, every pitched track has a channel, slots and notes are in
/// range, and what is counted fits.
pub open spec fn importable(m: MidiView, map: MapView) -> bool {
    &&& m.ticks_per_quarter >= 4
    &&& forall|i: int| 0 <= i < map.tracks.len() ==> track_ready(#[trigger] map.tracks[i])
    &&& forall|i: int| 0 <= i < map.instruments.len() ==> (#[trigger] map.instruments[i]).0
        < INSTRUMENTS
    &&& forall|k: u8| #[trigger]
        map.drums.contains_key(k) ==> match map.drums[k] {
            DrumTarget::Dpcm(slot) => slot <= 195,
            DrumTarget::Noi { .. } => true,
        }
    &&& (2 * map.tracks.len() + 600) * (span(m) + 16) <= usize::MAX
}

pub open spec fn track_ready(t: TrackMapView) -> bool {
    t.drums || (t.ch is Some && t.ch->0 < CHANNELS)
}

pub proof fn lemma_last_end(notes: Seq<MidiNote>, rt: nat, k: nat, i: int)
    requires
        0 <= i < k,
        k <= notes.len(),
    ensures
        row_of(notes[i].tick, rt) + rows_of(notes[i].len, rt) <= last_end(notes, rt, k),
    decreases k,
{
    if i < k - 1 {
        lemma_last_end(notes, rt, (k - 1) as nat, i);
    }
}

pub proof fn lemma_span(tracks: Seq<TrackView>, rt: nat, k: nat, i: int)
    requires
        0 <= i < k,
        k <= tracks.len(),
    ensures
        last_end(tracks[i].notes, rt, tracks[i].notes.len()) <= span_of(tracks, rt, k),
    decreases k,
{
    if i < k - 1 {
        lemma_span(tracks, rt, (k - 1) as nat, i);
    }
}

fn find_row(tick: u64, rt: u64) -> (r: u128)
    requires
        rt > 0,
    ensures
        r == row_of(tick, rt as nat),
        r <= 0x2_0000_0000_0000_0000,
{
    let a: u128 = 2 * tick as u128 + rt as u128;
    let b: u128 = 2 * rt as u128;
    assert(a / b <= a) by (nonlinear_arith)
        requires
            b >= 1,
            a >= 0,
    ;
    assert(a <= 0x3_0000_0000_0000_0000);
    assert(a / b <= 0x2_0000_0000_0000_0000) by (nonlinear_arith)
        requires
            b >= 2,
            a <= 0x3_0000_0000_0000_0000,
    ;
    a / b
}

fn count_rows(len: u64, rt: u64) -> (r: u128)
    requires
        rt > 0,
    ensures
        r == rows_of(len, rt as nat),
        r <= 0x2_0000_0000_0000_0000,
{
    let n: u128 = find_row(len, rt);
    if n < 1 {
        1
    } else {
        n
    }
}

/// The notes of row `r` among the first `k`: key and rows covered.
pub open spec fn row_notes(notes: Seq<MidiNote>, rt: nat, r: nat, k: nat) -> Seq<(u8, usize)>
    decreases k,
{
    if k == 0 {
        Seq::empty()
    } else {
        let before = row_notes(notes, rt, r, (k - 1) as nat);
        let n = notes[k - 1];
        if row_of(n.tick, rt) == r {
            before.push((n.key, rows_of(n.len, rt) as usize))
        } else {
            before
        }
    }
}

/// The chords of a track, row by row.
pub open spec fn chord_rows(t: TrackView, rt: nat, total: nat) -> Seq<Seq<(u8, usize)>> {
    Seq::new(total, |r: int| row_notes(t.notes, rt, r as nat, t.notes.len()))
}

pub open spec fn chord_views(v: Seq<Vec<(u8, usize)>>) -> Seq<Seq<(u8, usize)>> {
    v.map_values(|c: Vec<(u8, usize)>| c@)
}

proof fn lemma_row_notes_nonempty(notes: Seq<MidiNote>, rt: nat, r: nat, k: nat, j: int)
    requires
        k <= notes.len(),
        last_end(notes, rt, k) <= usize::MAX,
        0 <= j < row_notes(notes, rt, r, k).len(),
    ensures
        r + row_notes(notes, rt, r, k)[j].1 <= last_end(notes, rt, k),
        row_notes(notes, rt, r, k)[j].1 >= 1,
    decreases k,
{
    if k > 0 {
        let before = row_notes(notes, rt, r, (k - 1) as nat);
        if j < before.len() {
            lemma_row_notes_nonempty(notes, rt, r, (k - 1) as nat, j);
        }
    }
}

/// Sorts a track's notes into rows.
fn split_rows(t: &MidiTrack, rt: u64, total: usize) -> (r: Vec<Vec<(u8, usize)>>)
    requires
        rt > 0,
        last_end(t@.notes, rt as nat, t@.notes.len()) <= total,
    ensures
        chord_views(r@) == chord_rows(t@, rt as nat, total as nat),
        r@.len() == total,
{
    let ghost notes = t@.notes;
    let mut rows: Vec<Vec<(u8, usize)>> = Vec::new();
    for i in 0..total
        invariant
            rows@.len() == i,
            forall|j: int| 0 <= j < i ==> (#[trigger] rows@[j])@.len() == 0,
    {
        rows.push(Vec::new());
    }
    assert forall|j: int| 0 <= j < total implies (#[trigger] rows@[j])@ == row_notes(
        notes,
        rt as nat,
        j as nat,
        0,
    ) by {
        assert(rows@[j]@ =~= Seq::empty());
    }
    for i in 0..t.notes.len()
        invariant
            rt > 0,
            notes == t.notes@,
            last_end(notes, rt as nat, notes.len()) <= total,
            rows@.len() == total,
            forall|j: int|
                0 <= j < total ==> (#[trigger] rows@[j])@ == row_notes(
                    notes,
                    rt as nat,
                    j as nat,
                    i as nat,
                ),
    {
        let n: MidiNote = t.notes[i];
        proof {
            lemma_last_end(notes, rt as nat, notes.len(), i as int);
        }
        let at: usize = find_row(n.tick, rt) as usize;
        let len: usize = count_rows(n.len, rt) as usize;
        let ghost before = rows@;
        let mut c: Vec<(u8, usize)> = Vec::new();
        std::mem::swap(&mut c, &mut rows[at]);
        c.push((n.key, len));
        rows[at] = c;
        assert forall|j: int| 0 <= j < total implies (#[trigger] rows@[j])@ == row_notes(
            notes,
            rt as nat,
            j as nat,
            (i + 1) as nat,
        ) by {
            assert(before[j]@ == row_notes(notes, rt as nat, j as nat, i as nat));
            if j == at {
                assert(rows@[j]@ =~= before[j]@.push((n.key, len)));
            } else {
                assert(rows@[j] == before[j]);
            }
        }
    }
    assert(chord_views(rows@) =~= chord_rows(t@, rt as nat, total as nat));
    rows
}

// ---------------------------------------------------------------- chords

/// Where the first lowest of the first `k` notes stands.
pub open spec fn lowest(c: Seq<(u8, usize)>, k: nat) -> nat
    decreases k,
{
    if k <= 1 {
        0
    } else {
        let b = lowest(c, (k - 1) as nat);
        if c[k - 1].0 < c[b as int].0 {
            (k - 1) as nat
        } else {
            b
        }
    }
}

/// Where the last highest of the first `k` notes stands.
pub open spec fn highest(c: Seq<(u8, usize)>, k: nat) -> nat
    decreases k,
{
    if k <= 1 {
        0
    } else {
        let b = highest(c, (k - 1) as nat);
        if c[k - 1].0 >= c[b as int].0 {
            (k - 1) as nat
        } else {
            b
        }
    }
}

fn find_lowest(c: &Vec<(u8, usize)>) -> (r: usize)
    requires
        c@.len() > 0,
    ensures
        r == lowest(c@, c@.len()),
        r < c@.len(),
{
    let mut b: usize = 0;
    for i in 1..c.len()
        invariant
            1 <= i <= c@.len(),
            b == lowest(c@, i as nat),
            b < i,
    {
        if c[i].0 < c[b].0 {
            b = i;
        }
    }
    b
}

fn find_highest(c: &Vec<(u8, usize)>) -> (r: usize)
    requires
        c@.len() > 0,
    ensures
        r == highest(c@, c@.len()),
        r < c@.len(),
{
    let mut b: usize = 0;
    for i in 1..c.len()
        invariant
            1 <= i <= c@.len(),
            b == highest(c@, i as nat),
            b < i,
    {
        if c[i].0 >= c[b].0 {
            b = i;
        }
    }
    b
}

/// Whether a chord holds a pitch class.
pub open spec fn has_class(c: Seq<(u8, usize)>, pc: u8) -> bool {
    exists|i: int| 0 <= i < c.len() && (#[trigger] c[i]).0 % 12 == pc
}

/// Whether two chords are made of the same pitch classes.
pub open spec fn same_classes(a: Seq<(u8, usize)>, b: Seq<(u8, usize)>) -> bool {
    forall|pc: u8| pc < 12 ==> #[trigger] has_class(a, pc) == has_class(b, pc)
}

fn find_class(c: &Vec<(u8, usize)>, pc: u8) -> (r: bool)
    ensures
        r == has_class(c@, pc),
{
    let mut i: usize = 0;
    while i < c.len()
        invariant
            i <= c@.len(),
            forall|j: int| 0 <= j < i ==> (#[trigger] c@[j]).0 % 12 != pc,
        decreases c@.len() - i,
    {
        if c[i].0 % 12 == pc {
            assert(c@[i as int].0 % 12 == pc);
            return true;
        }
        i += 1;
    }
    false
}

fn are_same_classes(a: &Vec<(u8, usize)>, b: &Vec<(u8, usize)>) -> (r: bool)
    ensures
        r == same_classes(a@, b@),
{
    for pc in 0..12u8
        invariant
            forall|q: u8| q < pc ==> #[trigger] has_class(a@, q) == has_class(b@, q),
    {
        if find_class(a, pc) != find_class(b, pc) {
            return false;
        }
    }
    true
}

/// Whether a key is a fifth above a root, in any octave.
pub open spec fn is_fifth(k: u8, root: u8) -> bool {
    (k + 12 - root % 12) % 12 == 7
}

/// The lowest of the first `n` notes that is a fifth above a root.
pub open spec fn fifth_in(c: Seq<(u8, usize)>, root: u8, n: nat) -> Option<u8>
    decreases n,
{
    if n == 0 {
        None
    } else {
        let before = fifth_in(c, root, (n - 1) as nat);
        let k = c[n - 1].0;
        if is_fifth(k, root) && (before is None || k < before->0) {
            Some(k)
        } else {
            before
        }
    }
}

fn find_fifth(c: &Vec<(u8, usize)>, root: u8) -> (r: Option<u8>)
    ensures
        r == fifth_in(c@, root, c@.len()),
{
    let mut best: Option<u8> = None;
    for i in 0..c.len()
        invariant
            best == fifth_in(c@, root, i as nat),
    {
        let k: u8 = c[i].0;
        if (k as u32 + 12 - (root % 12) as u32) % 12 == 7 {
            match best {
                None => {
                    best = Some(k);
                },
                Some(b) => {
                    if k < b {
                        best = Some(k);
                    }
                },
            }
        }
    }
    best
}

/// A chord that both pulses play is split between them: the first pulse
/// takes the fifth, the second the root.
pub open spec fn voicing(a: Seq<(u8, usize)>, b: Seq<(u8, usize)>) -> Option<(u8, u8)> {
    if a.len() < 2 || b.len() < 2 || !same_classes(a, b) {
        None
    } else {
        let root = b[lowest(b, b.len()) as int].0;
        match fifth_in(a, root, a.len()) {
            Some(f) => Some((f, root)),
            None => None,
        }
    }
}

fn voicing_of(a: &Vec<(u8, usize)>, b: &Vec<(u8, usize)>) -> (r: Option<(u8, u8)>)
    ensures
        r == voicing(a@, b@),
{
    if a.len() < 2 || b.len() < 2 || !are_same_classes(a, b) {
        return None;
    }
    let root: u8 = b[find_lowest(b)].0;
    match find_fifth(a, root) {
        Some(f) => Some((f, root)),
        None => None,
    }
}

/// The voicings of two tracks, row by row.
pub open spec fn voicings(a: Seq<Seq<(u8, usize)>>, b: Seq<Seq<(u8, usize)>>) -> Seq<
    Option<(u8, u8)>,
> {
    Seq::new(a.len(), |r: int| voicing(a[r], b[r]))
}

/// How many of the first `k` rows are voiced.
pub open spec fn count_voiced(v: Seq<Option<(u8, u8)>>, k: nat) -> nat
    decreases k,
{
    if k == 0 {
        0
    } else {
        count_voiced(v, (k - 1) as nat) + (if v[k - 1] is Some {
            1nat
        } else {
            0nat
        })
    }
}

// ---------------------------------------------------------------- lanes

/// One note of a lane: its key and how many rows it covers.
#[derive(Clone, Copy, Debug, PartialEq, Eq, Structural)]
pub struct RowNote {
    pub key: u8,
    pub len_rows: usize,
}

/// How long a chord's first note of a key lasts.
pub open spec fn len_of_key(c: Seq<(u8, usize)>, key: u8, i: nat) -> usize
    decreases c.len() - i,
{
    if i >= c.len() {
        1
    } else if c[i as int].0 == key {
        c[i as int].1
    } else {
        len_of_key(c, key, i + 1)
    }
}

fn find_len(c: &Vec<(u8, usize)>, key: u8) -> (r: usize)
    ensures
        r == len_of_key(c@, key, 0),
{
    let mut i: usize = 0;
    while i < c.len()
        invariant
            i <= c@.len(),
            len_of_key(c@, key, 0) == len_of_key(c@, key, i as nat),
        decreases c@.len() - i,
    {
        if c[i].0 == key {
            return c[i].1;
        }
        i += 1;
    }
    1
}

/// A key moved into a channel's range by octaves, and how often it had to be
/// moved. The triangle goes down to C-1, the others to A-1.
pub open spec fn placed_key(key: int, triangle: bool) -> (u8, nat) {
    let floor: int = if triangle {
        24
    } else {
        33
    };
    let (k1, n1): (int, nat) = if key < floor {
        (key + 12 * ((floor - key + 11) / 12), 1)
    } else {
        (key, 0)
    };
    if k1 > 119 {
        ((k1 - 12 * ((k1 - 119 + 11) / 12)) as u8, n1 + 1)
    } else {
        (k1 as u8, n1)
    }
}

fn place_key(key: i64, triangle: bool) -> (r: (u8, usize))
    requires
        -0x10_0000_0000 < key < 0x10_0000_0000,
    ensures
        (r.0, r.1 as nat) == placed_key(key as int, triangle),
        r.1 <= 2,
{
    let floor: i64 = if triangle {
        24
    } else {
        33
    };
    let mut k: i64 = key;
    let mut n: usize = 0;
    if k < floor {
        let octaves: u64 = ((floor - k + 11) as u64) / 12;
        k = k + 12 * octaves as i64;
        n += 1;
    }
    if k > 119 {
        let octaves: u64 = ((k - 119 + 11) as u64) / 12;
        k = k - 12 * octaves as i64;
        n += 1;
    }
    (k as u8, n)
}

/// What a row of a lane plays, whether a chord was flattened for it, and how
/// often its key was moved.
pub open spec fn lane_note(
    c: Seq<(u8, usize)>,
    voiced: Option<u8>,
    t: TrackMapView,
    transpose: i32,
) -> (Option<RowNote>, bool, nat) {
    if c.len() == 0 {
        (None, false, 0)
    } else {
        let (key, len, flat) = match voiced {
            Some(k) => (k, len_of_key(c, k, 0), false),
            None => {
                let n = if t.flatten == "root"@ {
                    c[lowest(c, c.len()) as int]
                } else {
                    c[highest(c, c.len()) as int]
                };
                (n.0, n.1, c.len() > 1)
            },
        };
        let (k, moved) = placed_key(key + t.octave * 12 + transpose, t.ch == Some(2usize));
        (Some(RowNote { key: k, len_rows: len }), flat, moved)
    }
}

fn lane_note_of(c: &Vec<(u8, usize)>, voiced: Option<u8>, t: &TrackMap, root: bool, transpose: i32) -> (r: (
    Option<RowNote>,
    bool,
    usize,
))
    requires
        root == (t@.flatten == "root"@),
    ensures
        (r.0, r.1, r.2 as nat) == lane_note(c@, voiced, t@, transpose),
        r.2 <= 2,
{
    if c.len() == 0 {
        return (None, false, 0);
    }
    let (key, len, flat): (u8, usize, bool) = match voiced {
        Some(k) => (k, find_len(c, k), false),
        None => {
            let i: usize = if root {
                find_lowest(c)
            } else {
                find_highest(c)
            };
            (c[i].0, c[i].1, c.len() > 1)
        },
    };
    let triangle: bool = match t.ch {
        Some(ch) => ch == 2,
        None => false,
    };
    let (k, moved): (u8, usize) = place_key(
        key as i64 + t.octave as i64 * 12 + transpose as i64,
        triangle,
    );
    (Some(RowNote { key: k, len_rows: len }), flat, moved)
}

/// A lane with what was done to make it.
#[verifier::ext_equal]
pub struct Lane {
    pub notes: Seq<Option<RowNote>>,
    pub flattened: nat,
    pub clamped: nat,
}

/// The first `k` rows of a lane.
pub open spec fn lane(
    rows: Seq<Seq<(u8, usize)>>,
    voiced: Seq<Option<u8>>,
    t: TrackMapView,
    transpose: i32,
    k: nat,
) -> Lane
    decreases k,
{
    if k == 0 {
        Lane { notes: Seq::empty(), flattened: 0, clamped: 0 }
    } else {
        let l = lane(rows, voiced, t, transpose, (k - 1) as nat);
        let (n, flat, moved) = lane_note(rows[k - 1], voiced[k - 1], t, transpose);
        Lane {
            notes: l.notes.push(n),
            flattened: l.flattened + (if flat {
                1nat
            } else {
                0nat
            }),
            clamped: l.clamped + moved,
        }
    }
}

fn make_lane(
    rows: &Vec<Vec<(u8, usize)>>,
    voiced: &Vec<Option<u8>>,
    t: &TrackMap,
    transpose: i32,
) -> (r: (Vec<Option<RowNote>>, usize, usize))
    requires
        voiced@.len() == rows@.len(),
        rows@.len() * 2 <= usize::MAX,
    ensures
        ({
            let l = lane(chord_views(rows@), voiced@, t@, transpose, rows@.len());
            r.0@ == l.notes && r.1 == l.flattened && r.2 == l.clamped
        }),
        r.0@.len() == rows@.len(),
        r.1 <= rows@.len(),
        r.2 <= 2 * rows@.len(),
{
    let ghost all = chord_views(rows@);
    let root: bool = text::same_str(t.flatten.as_str(), "root");
    let mut out: Vec<Option<RowNote>> = Vec::new();
    let mut flattened: usize = 0;
    let mut clamped: usize = 0;
    for r in 0..rows.len()
        invariant
            all == chord_views(rows@),
            voiced@.len() == rows@.len(),
            rows@.len() * 2 <= usize::MAX,
            root == (t@.flatten == "root"@),
            ({
                let l = lane(all, voiced@, t@, transpose, r as nat);
                out@ == l.notes && flattened == l.flattened && clamped == l.clamped
            }),
            out@.len() == r,
            flattened <= r,
            clamped <= 2 * r,
    {
        assert(all[r as int] == rows@[r as int]@);
        let (n, flat, moved): (Option<RowNote>, bool, usize) = lane_note_of(
            &rows[r],
            voiced[r],
            t,
            root,
            transpose,
        );
        out.push(n);
        if flat {
            flattened += 1;
        }
        clamped += moved;
    }
    (out, flattened, clamped)
}

/// The row after the last of a lane's first `k` rows.
pub open spec fn lane_end(l: Seq<Option<RowNote>>, k: nat) -> nat
    decreases k,
{
    if k == 0 {
        0
    } else {
        let before = lane_end(l, (k - 1) as nat);
        match l[k - 1] {
            None => before,
            Some(n) => if k - 1 + n.len_rows > before {
                (k - 1 + n.len_rows) as nat
            } else {
                before
            },
        }
    }
}

// ---------------------------------------------------------------- drums

/// Where a key stands in a priority list; behind it where it is not there.
pub open spec fn rank(list: Seq<u8>, k: u8, i: nat) -> nat
    decreases list.len() - i,
{
    if i >= list.len() || list[i as int] == k {
        i
    } else {
        rank(list, k, i + 1)
    }
}

fn find_rank(list: &Vec<u8>, k: u8) -> (r: usize)
    ensures
        r == rank(list@, k, 0),
{
    let mut i: usize = 0;
    while i < list.len() && list[i] != k
        invariant
            i <= list@.len(),
            rank(list@, k, 0) == rank(list@, k, i as nat),
        decreases list@.len() - i,
    {
        i += 1;
    }
    i
}

/// A drum hit: its key, its note or slot, and its instrument.
#[derive(Clone, Copy, Debug, PartialEq, Eq, Structural)]
pub struct Hit {
    pub key: u8,
    pub note: u8,
    pub instr: u8,
}

/// Where a hit goes among the first `n`: behind all of the same or a higher
/// priority.
pub open spec fn hit_place(v: Seq<Hit>, list: Seq<u8>, k: u8, n: nat) -> nat
    decreases n,
{
    if n == 0 || rank(list, v[n - 1].key, 0) <= rank(list, k, 0) {
        n
    } else {
        hit_place(v, list, k, (n - 1) as nat)
    }
}

pub open spec fn with_hit(v: Seq<Hit>, list: Seq<u8>, h: Hit) -> Seq<Hit> {
    v.insert(hit_place(v, list, h.key, v.len()) as int, h)
}

fn add_hit(v: &mut Vec<Hit>, list: &Vec<u8>, h: Hit)
    ensures
        final(v)@ == with_hit(old(v)@, list@, h),
        final(v)@.len() == old(v)@.len() + 1,
{
    let mine: usize = find_rank(list, h.key);
    let mut n: usize = v.len();
    while n > 0 && find_rank(list, v[n - 1].key) > mine
        invariant
            n <= v@.len(),
            v@ == old(v)@,
            mine == rank(list@, h.key, 0),
            hit_place(v@, list@, h.key, v@.len()) == hit_place(v@, list@, h.key, n as nat),
        decreases n,
    {
        n -= 1;
    }
    v.insert(n, h);
}

/// The hits of a row, by channel, highest priority first.
#[verifier::ext_equal]
pub struct Hits {
    pub seen: Seq<u8>,
    pub dpcm: Seq<Hit>,
    pub noi: Seq<Hit>,
}

/// The hits of the first `n` keys struck on a row. A key struck twice counts
/// once.
pub open spec fn hits(map: MapView, keys: Seq<u8>, n: nat) -> Hits
    decreases n,
{
    if n == 0 {
        Hits { seen: Seq::empty(), dpcm: Seq::empty(), noi: Seq::empty() }
    } else {
        let h = hits(map, keys, (n - 1) as nat);
        let k = keys[n - 1];
        if h.seen.contains(k) {
            h
        } else if !map.drums.contains_key(k) {
            Hits { seen: h.seen.push(k), ..h }
        } else {
            match map.drums[k] {
                DrumTarget::Dpcm(slot) => Hits {
                    seen: h.seen.push(k),
                    dpcm: with_hit(h.dpcm, map.priority_dpcm, Hit { key: k, note: slot, instr: 0 }),
                    ..h
                },
                DrumTarget::Noi { note, instr } => Hits {
                    seen: h.seen.push(k),
                    noi: with_hit(h.noi, map.priority_noi, Hit { key: k, note, instr }),
                    ..h
                },
            }
        }
    }
}

/// The noise hit that is left when the first `n` hits on the sample channel
/// have taken their turn: the first has the channel, the others may fall back
/// to a free noise channel or are dropped.
pub open spec fn fallen(map: MapView, dpcm: Seq<Hit>, noi: Option<Hit>, n: nat) -> (
    Option<Hit>,
    nat,
    nat,
)
    decreases n,
{
    if n <= 1 {
        (noi, 0, 0)
    } else {
        let (h, falls, drops) = fallen(map, dpcm, noi, (n - 1) as nat);
        let k = dpcm[n - 1].key;
        if map.fallback.contains_key(k) {
            match map.fallback[k] {
                DrumTarget::Noi { note, instr } => if h is None {
                    (Some(Hit { key: k, note, instr }), falls + 1, drops)
                } else {
                    (h, falls, drops + 1)
                },
                DrumTarget::Dpcm(_) => (h, falls, drops + 1),
            }
        } else {
            (h, falls, drops + 1)
        }
    }
}

/// What a row of drums comes to.
#[verifier::ext_equal]
pub struct DrumRow {
    pub dpcm: Option<u8>,
    pub noi: Option<(u8, u8)>,
    pub dpcm_conflict: bool,
    pub noi_conflict: bool,
    pub fallbacks: nat,
    pub dropped: nat,
}

pub open spec fn drum_row(map: MapView, keys: Seq<u8>) -> DrumRow {
    let h = hits(map, keys, keys.len());
    let first = if h.noi.len() > 0 {
        Some(h.noi[0])
    } else {
        None
    };
    let (noi, falls, drops) = fallen(map, h.dpcm, first, h.dpcm.len());
    DrumRow {
        dpcm: if h.dpcm.len() > 0 {
            Some((60 + h.dpcm[0].note) as u8)
        } else {
            None
        },
        noi: match noi {
            Some(x) => Some((x.note, x.instr)),
            None => None,
        },
        dpcm_conflict: h.dpcm.len() > 1,
        noi_conflict: h.noi.len() > 1,
        fallbacks: falls,
        dropped: drops,
    }
}

/// Every hit on the sample channel names a slot that a note reaches.
pub open spec fn slots_fit(v: Seq<Hit>) -> bool {
    forall|i: int| 0 <= i < v.len() ==> (#[trigger] v[i]).note <= 195
}

proof fn lemma_hit_place(v: Seq<Hit>, list: Seq<u8>, k: u8, n: nat)
    requires
        n <= v.len(),
    ensures
        hit_place(v, list, k, n) <= n,
    decreases n,
{
    if n > 0 {
        lemma_hit_place(v, list, k, (n - 1) as nat);
    }
}

proof fn lemma_with_hit_fits(v: Seq<Hit>, list: Seq<u8>, h: Hit)
    requires
        slots_fit(v),
        h.note <= 195,
    ensures
        slots_fit(with_hit(v, list, h)),
{
    lemma_hit_place(v, list, h.key, v.len());
    let p = hit_place(v, list, h.key, v.len()) as int;
    let w = with_hit(v, list, h);
    assert forall|i: int| 0 <= i < w.len() implies (#[trigger] w[i]).note <= 195 by {
        if i < p {
            assert(w[i] == v[i]);
        } else if i > p {
            assert(w[i] == v[i - 1]);
        }
    }
}

/// A set of keys seen holds at most one of each.
proof fn lemma_distinct_bytes(s: Seq<u8>)
    requires
        s.no_duplicates(),
    ensures
        s.len() <= 256,
{
    let t = s.map_values(|b: u8| b as int);
    assert(t.no_duplicates()) by {
        assert forall|i: int, j: int| 0 <= i < t.len() && 0 <= j < t.len() && i != j implies t[i]
            != t[j] by {
            assert(s[i] != s[j]);
        }
    }
    t.unique_seq_to_set();
    let all = vstd::set_lib::set_int_range(0, 256);
    vstd::set_lib::lemma_int_range(0, 256);
    assert(t.to_set().subset_of(all)) by {
        assert forall|x: int| t.to_set().contains(x) implies all.contains(x) by {
            let i = choose|i: int| 0 <= i < t.len() && t[i] == x;
            assert(t[i] == x);
        }
    }
    vstd::set_lib::lemma_len_subset(t.to_set(), all);
}

fn contains_byte(v: &Vec<u8>, k: u8) -> (r: bool)
    ensures
        r == v@.contains(k),
{
    let mut i: usize = 0;
    while i < v.len()
        invariant
            i <= v@.len(),
            forall|j: int| 0 <= j < i ==> #[trigger] v@[j] != k,
        decreases v@.len() - i,
    {
        if v[i] == k {
            assert(v@[i as int] == k);
            return true;
        }
        i += 1;
    }
    false
}

fn target_of(d: &std::collections::BTreeMap<u8, DrumTarget>, k: u8) -> (r: Option<DrumTarget>)
    ensures
        match r {
            Some(t) => d@.contains_key(k) && d@[k] == t,
            None => !d@.contains_key(k),
        },
{
    broadcast use vstd::std_specs::btree::group_btree_axioms;

    match d.get(&k) {
        Some(t) => Some(*t),
        None => None,
    }
}

fn find_hits(map: &ImportMap, keys: &Vec<u8>) -> (r: (Vec<Hit>, Vec<Hit>))
    requires
        forall|k: u8| #[trigger]
            map@.drums.contains_key(k) ==> match map@.drums[k] {
                DrumTarget::Dpcm(slot) => slot <= 195,
                DrumTarget::Noi { .. } => true,
            },
    ensures
        r.0@ == hits(map@, keys@, keys@.len()).dpcm,
        r.1@ == hits(map@, keys@, keys@.len()).noi,
        slots_fit(r.0@),
        r.0@.len() <= 256,
{
    let mut seen: Vec<u8> = Vec::new();
    let mut dpcm: Vec<Hit> = Vec::new();
    let mut noi: Vec<Hit> = Vec::new();
    for n in 0..keys.len()
        invariant
            forall|k: u8| #[trigger]
                map@.drums.contains_key(k) ==> match map@.drums[k] {
                    DrumTarget::Dpcm(slot) => slot <= 195,
                    DrumTarget::Noi { .. } => true,
                },
            (Hits { seen: seen@, dpcm: dpcm@, noi: noi@ }) == hits(map@, keys@, n as nat),
            slots_fit(dpcm@),
            dpcm@.len() <= seen@.len(),
            seen@.no_duplicates(),
    {
        let k: u8 = keys[n];
        if !contains_byte(&seen, k) {
            seen.push(k);
            match target_of(&map.drums, k) {
                None => {},
                Some(DrumTarget::Dpcm(slot)) => {
                    let h: Hit = Hit { key: k, note: slot, instr: 0 };
                    proof {
                        lemma_with_hit_fits(dpcm@, map.priority_dpcm@, h);
                    }
                    add_hit(&mut dpcm, &map.priority_dpcm, h);
                },
                Some(DrumTarget::Noi { note, instr }) => {
                    add_hit(&mut noi, &map.priority_noi, Hit { key: k, note, instr });
                },
            }
        }
        assert((Hits { seen: seen@, dpcm: dpcm@, noi: noi@ }) =~= hits(
            map@,
            keys@,
            (n + 1) as nat,
        ));
    }
    proof {
        lemma_distinct_bytes(seen@);
    }
    (dpcm, noi)
}

/// What a row of drums comes to.
struct DrumCells {
    dpcm: Option<u8>,
    noi: Option<(u8, u8)>,
    dpcm_conflict: bool,
    noi_conflict: bool,
    fallbacks: usize,
    dropped: usize,
}

impl View for DrumCells {
    type V = DrumRow;

    closed spec fn view(&self) -> DrumRow {
        DrumRow {
            dpcm: self.dpcm,
            noi: self.noi,
            dpcm_conflict: self.dpcm_conflict,
            noi_conflict: self.noi_conflict,
            fallbacks: self.fallbacks as nat,
            dropped: self.dropped as nat,
        }
    }
}

fn drum_cells(map: &ImportMap, keys: &Vec<u8>) -> (r: DrumCells)
    requires
        forall|k: u8| #[trigger]
            map@.drums.contains_key(k) ==> match map@.drums[k] {
                DrumTarget::Dpcm(slot) => slot <= 195,
                DrumTarget::Noi { .. } => true,
            },
    ensures
        r@ == drum_row(map@, keys@),
        r.fallbacks <= 256,
        r.dropped <= 256,
{
    let (dpcm, noi): (Vec<Hit>, Vec<Hit>) = find_hits(map, keys);
    let first: Option<Hit> = if noi.len() > 0 {
        Some(noi[0])
    } else {
        None
    };
    let mut h: Option<Hit> = first;
    let mut falls: usize = 0;
    let mut drops: usize = 0;
    let mut n: usize = 1;
    while n < dpcm.len()
        invariant
            1 <= n,
            dpcm@.len() <= 256,
            n <= dpcm@.len() || dpcm@.len() <= 1,
            n > 1 ==> n <= dpcm@.len(),
            (h, falls as nat, drops as nat) == fallen(map@, dpcm@, first, n as nat),
            falls <= n,
            drops <= n,
            falls + drops < n,
        decreases dpcm@.len() - n,
    {
        let k: u8 = dpcm[n].key;
        match target_of(&map.fallback, k) {
            Some(DrumTarget::Noi { note, instr }) => {
                if h.is_none() {
                    h = Some(Hit { key: k, note, instr });
                    falls += 1;
                } else {
                    drops += 1;
                }
            },
            Some(DrumTarget::Dpcm(_)) => {
                drops += 1;
            },
            None => {
                drops += 1;
            },
        }
        n += 1;
    }
    assert((h, falls as nat, drops as nat) == fallen(map@, dpcm@, first, dpcm@.len()));
    let r: DrumCells = DrumCells {
        dpcm: if dpcm.len() > 0 {
            Some(60 + dpcm[0].note)
        } else {
            None
        },
        noi: match h {
            Some(x) => Some((x.note, x.instr)),
            None => None,
        },
        dpcm_conflict: dpcm.len() > 1,
        noi_conflict: noi.len() > 1,
        fallbacks: falls,
        dropped: drops,
    };
    assert(r@ =~= drum_row(map@, keys@));
    r
}

// ---------------------------------------------------------------- routing

/// Whether a text stands in another.
pub open spec fn stands_in(part: Seq<char>, s: Seq<char>) -> bool {
    exists|i: int| 0 <= i && i + part.len() <= s.len() && #[trigger] s.subrange(
        i,
        i + part.len(),
    ) == part
}

fn find_part(part: &[char], s: &[char]) -> (r: bool)
    ensures
        r == stands_in(part@, s@),
{
    let len: usize = s.len();
    if part.len() > len {
        return false;
    }
    let top: usize = len - part.len();
    let mut i: usize = 0;
    while i <= top
        invariant
            len == s@.len(),
            top == len - part@.len(),
            i <= top + 1,
            forall|j: int|
                0 <= j < i ==> #[trigger] s@.subrange(j, j + part@.len()) != part@,
        decreases top + 1 - i,
    {
        let piece: &[char] = vstd::slice::slice_subrange(s, i, i + part.len());
        assert(piece@ == s@.subrange(i as int, i + part@.len()));
        if text::same(piece, part) {
            return true;
        }
        if i == top {
            return false;
        }
        i += 1;
    }
    false
}

/// Whether a track is the one a map asks for: it has notes, and its name
/// holds the wanted text, in any case.
pub open spec fn is_wanted(t: TrackView, name: Seq<char>) -> bool {
    t.notes.len() > 0 && stands_in(text::lower(name), text::lower(t.name))
}

/// The first wanted track from `i` on, or how many there are.
pub open spec fn track_index(ts: Seq<TrackView>, name: Seq<char>, i: nat) -> nat
    decreases ts.len() - i,
{
    if i >= ts.len() || is_wanted(ts[i as int], name) {
        i
    } else {
        track_index(ts, name, i + 1)
    }
}

fn find_track(midi: &Midi, name: &str) -> (r: usize)
    ensures
        r == track_index(midi@.tracks, name@, 0),
        r <= midi.tracks@.len(),
{
    let ghost ts = midi@.tracks;
    let raw: Vec<char> = text::chars_of(name);
    let want: Vec<char> = text::lower_of(raw.as_slice());
    let mut i: usize = 0;
    while i < midi.tracks.len()
        invariant
            i <= midi.tracks@.len(),
            ts == smf::track_views(midi.tracks@),
            want@ == text::lower(name@),
            track_index(ts, name@, 0) == track_index(ts, name@, i as nat),
        decreases midi.tracks@.len() - i,
    {
        assert(ts[i as int] == midi.tracks@[i as int]@);
        let t: &MidiTrack = &midi.tracks[i];
        let own: Vec<char> = text::lower_of(text::chars_of(t.name.as_str()).as_slice());
        if t.notes.len() > 0 && find_part(want.as_slice(), own.as_slice()) {
            return i;
        }
        i += 1;
    }
    assert(ts.len() == midi.tracks@.len());
    i
}

pub open spec fn channel_label(ch: usize) -> Seq<char> {
    if ch == 0 {
        "PU1"@
    } else if ch == 1 {
        "PU2"@
    } else if ch == 2 {
        "TRI"@
    } else if ch == 3 {
        "NOI"@
    } else {
        "DPCM"@
    }
}

fn label_channel(ch: usize) -> (r: &'static str)
    ensures
        r@ == channel_label(ch),
{
    if ch == 0 {
        "PU1"
    } else if ch == 1 {
        "PU2"
    } else if ch == 2 {
        "TRI"
    } else if ch == 3 {
        "NOI"
    } else {
        "DPCM"
    }
}

/// Where the tracks go.
#[verifier::ext_equal]
pub struct Routing {
    pub lines: Seq<Seq<char>>,
    /// Pitched tracks: the file's track and the map's.
    pub pitched: Seq<(usize, usize)>,
    /// The track that plays the drums: the last that the map gives them.
    pub drums: Option<usize>,
}

/// Where the first `k` tracks of the map go.
pub open spec fn routing(m: MidiView, map: MapView, k: nat) -> Result<Routing, ImportError>
    decreases k,
{
    if k == 0 {
        Ok(Routing { lines: Seq::empty(), pitched: Seq::empty(), drums: None })
    } else {
        match routing(m, map, (k - 1) as nat) {
            Err(e) => Err(e),
            Ok(r) => {
                let t = map.tracks[k - 1];
                let i = track_index(m.tracks, t.midi, 0);
                if i >= m.tracks.len() {
                    Err(ImportError::NoTrack((k - 1) as usize))
                } else {
                    let to = if t.drums {
                        "drums"@
                    } else {
                        channel_label(t.ch->0)
                    };
                    let lines = r.lines.push(m.tracks[i as int].name + " → "@ + to);
                    if t.drums {
                        Ok(Routing { lines, drums: Some(i as usize), ..r })
                    } else {
                        Ok(
                            Routing {
                                lines,
                                pitched: r.pitched.push((i as usize, (k - 1) as usize)),
                                ..r
                            },
                        )
                    }
                }
            },
        }
    }
}

proof fn lemma_routing_stops(m: MidiView, map: MapView, k: nat, n: nat)
    requires
        k <= n,
        routing(m, map, k) is Err,
    ensures
        routing(m, map, n) == routing(m, map, k),
    decreases n - k,
{
    if k < n {
        lemma_routing_stops(m, map, k, (n - 1) as nat);
    }
}

/// Where the tracks go.
struct Routes {
    lines: Vec<String>,
    pitched: Vec<(usize, usize)>,
    drums: Option<usize>,
}

impl View for Routes {
    type V = Routing;

    closed spec fn view(&self) -> Routing {
        Routing {
            lines: text::texts(self.lines@),
            pitched: self.pitched@,
            drums: self.drums,
        }
    }
}

/// Every route leads from a track of the file by a pitched track of the map.
pub open spec fn routes_sound(r: Routing, m: MidiView, map: MapView) -> bool {
    &&& forall|i: int|
        0 <= i < r.pitched.len() ==> (#[trigger] r.pitched[i]).0 < m.tracks.len()
            && r.pitched[i].1 < map.tracks.len() && !map.tracks[r.pitched[i].1 as int].drums
    &&& r.drums is Some ==> r.drums->0 < m.tracks.len()
    &&& r.pitched.len() <= map.tracks.len()
}

fn route(midi: &Midi, map: &ImportMap) -> (r: Result<Routes, ImportError>)
    requires
        forall|i: int| 0 <= i < map@.tracks.len() ==> track_ready(#[trigger] map@.tracks[i]),
    ensures
        match r {
            Ok(x) => routing(midi@, map@, map@.tracks.len()) == Ok::<Routing, ImportError>(x@)
                && routes_sound(x@, midi@, map@),
            Err(e) => routing(midi@, map@, map@.tracks.len()) == Err::<Routing, ImportError>(e),
        },
{
    let ghost m = midi@;
    let ghost mv = map@;
    assert(mv.tracks.len() == map.tracks@.len());
    assert(m.tracks.len() == midi.tracks@.len());
    let mut out: Routes = Routes { lines: Vec::new(), pitched: Vec::new(), drums: None };
    assert(out@ =~= Routing { lines: Seq::empty(), pitched: Seq::empty(), drums: None });
    for k in 0..map.tracks.len()
        invariant
            m == midi@,
            mv == map@,
            mv.tracks.len() == map.tracks@.len(),
            m.tracks.len() == midi.tracks@.len(),
            forall|i: int| 0 <= i < mv.tracks.len() ==> track_ready(#[trigger] mv.tracks[i]),
            routing(m, mv, k as nat) == Ok::<Routing, ImportError>(out@),
            routes_sound(out@, m, mv),
            out@.pitched.len() <= k,
    {
        assert(mv.tracks[k as int] == map.tracks@[k as int]@);
        let t: &TrackMap = &map.tracks[k];
        let i: usize = find_track(midi, t.midi.as_str());
        if i >= midi.tracks.len() {
            proof {
                lemma_routing_stops(m, mv, (k + 1) as nat, mv.tracks.len());
            }
            return Err(ImportError::NoTrack(k));
        }
        assert(m.tracks[i as int] == midi.tracks@[i as int]@);
        let mut line: Vec<char> = text::chars_of(midi.tracks[i].name.as_str());
        text::put_str(&mut line, " → ");
        if t.drums {
            text::put_str(&mut line, "drums");
            out.drums = Some(i);
        } else {
            let ch: usize = match t.ch {
                Some(c) => c,
                None => 0,
            };
            text::put_str(&mut line, label_channel(ch));
            out.pitched.push((i, k));
        }
        let said: String = text::string_of(line.as_slice());
        proof {
            text::lemma_texts_push(out.lines@, said);
        }
        out.lines.push(said);
        assert(routing(m, mv, (k + 1) as nat) == Ok::<Routing, ImportError>(out@));
    }
    Ok(out)
}

/// The first pitched track from `i` on that plays a channel.
pub open spec fn on_channel(map: MapView, pitched: Seq<(usize, usize)>, ch: usize, i: nat) -> Option<
    nat,
>
    decreases pitched.len() - i,
{
    if i >= pitched.len() {
        None
    } else if map.tracks[pitched[i as int].1 as int].ch == Some(ch) {
        Some(i)
    } else {
        on_channel(map, pitched, ch, i + 1)
    }
}

fn find_on_channel(map: &ImportMap, pitched: &Vec<(usize, usize)>, ch: usize) -> (r: Option<usize>)
    requires
        forall|i: int| 0 <= i < pitched@.len() ==> (#[trigger] pitched@[i]).1 < map.tracks@.len(),
    ensures
        match r {
            Some(i) => on_channel(map@, pitched@, ch, 0) == Some(i as nat) && i < pitched@.len(),
            None => on_channel(map@, pitched@, ch, 0) is None,
        },
{
    let mut i: usize = 0;
    while i < pitched.len()
        invariant
            i <= pitched@.len(),
            forall|i: int|
                0 <= i < pitched@.len() ==> (#[trigger] pitched@[i]).1 < map.tracks@.len(),
            on_channel(map@, pitched@, ch, 0) == on_channel(map@, pitched@, ch, i as nat),
        decreases pitched@.len() - i,
    {
        let t: usize = pitched[i].1;
        assert(map@.tracks[t as int] == map.tracks@[t as int]@);
        if let Some(c) = map.tracks[t].ch {
            if c == ch {
                return Some(i);
            }
        }
        i += 1;
    }
    None
}

// ---------------------------------------------------------------- the grid

/// The first row from `r` on, before `end`, where a channel has a note.
pub open spec fn hold_stop(g: Seq<Seq<Cell>>, ch: int, r: nat, end: nat) -> nat
    decreases end - r,
{
    if r >= end || g[r as int][ch].note is Some {
        r
    } else {
        hold_stop(g, ch, r + 1, end)
    }
}

/// The grid with a note at row `r`, held over the rows it covers up to the
/// next note or the end.
pub open spec fn note_placed(g: Seq<Seq<Cell>>, ch: int, r: nat, x: Cell, len: nat) -> Seq<
    Seq<Cell>,
> {
    let end = if r + len < g.len() {
        r + len
    } else {
        g.len()
    };
    let stop = hold_stop(g, ch, r + 1, end);
    Seq::new(
        g.len(),
        |i: int|
            if i == r {
                g[i].update(ch, x)
            } else if r < i < stop {
                g[i].update(ch, song::hold_cell())
            } else {
                g[i]
            },
    )
}

/// The cell a lane's note becomes: long ones get the track's vibrato.
pub open spec fn lane_cell(n: RowNote, t: TrackMapView) -> Cell {
    Cell {
        note: Some(n.key),
        instr: t.instr,
        vol: 0,
        fx: if t.vibrato is Some && n.len_rows >= t.vibrato_min_rows {
            t.vibrato
        } else {
            None
        },
        hold: false,
    }
}

/// The grid with the first `k` rows of a lane placed.
pub open spec fn lane_placed(
    g: Seq<Seq<Cell>>,
    l: Seq<Option<RowNote>>,
    t: TrackMapView,
    k: nat,
) -> Seq<Seq<Cell>>
    decreases k,
{
    if k == 0 {
        g
    } else {
        let h = lane_placed(g, l, t, (k - 1) as nat);
        match l[k - 1] {
            None => h,
            Some(n) => note_placed(
                h,
                t.ch->0 as int,
                (k - 1) as nat,
                lane_cell(n, t),
                n.len_rows as nat,
            ),
        }
    }
}

fn place_note(g: &mut Vec<[Cell; CHANNELS]>, ch: usize, r: usize, x: Cell, len: usize)
    requires
        r < old(g)@.len(),
        ch < CHANNELS,
        r + len <= usize::MAX,
    ensures
        song::row_views(final(g)@) == note_placed(
            song::row_views(old(g)@),
            ch as int,
            r as nat,
            x,
            len as nat,
        ),
        final(g)@.len() == old(g)@.len(),
{
    let ghost before = song::row_views(g@);
    let total: usize = g.len();
    let end: usize = if r + len < total {
        r + len
    } else {
        total
    };
    let ghost stop = hold_stop(before, ch as int, (r + 1) as nat, end as nat);
    let mut row: [Cell; CHANNELS] = g[r];
    row[ch] = x;
    g[r] = row;
    assert(song::row_views(g@)[r as int] =~= before[r as int].update(ch as int, x));
    let mut i: usize = r + 1;
    while i < end
        invariant
            r < i,
            end <= total,
            i <= end || i == r + 1,
            total == g@.len(),
            ch < CHANNELS,
            before.len() == total,
            stop == hold_stop(before, ch as int, i as nat, end as nat),
            stop == hold_stop(before, ch as int, (r + 1) as nat, end as nat),
            forall|j: int|
                0 <= j < total ==> #[trigger] song::row_views(g@)[j] == (if j == r {
                    before[j].update(ch as int, x)
                } else if r < j < i {
                    before[j].update(ch as int, song::hold_cell())
                } else {
                    before[j]
                }),
            before == song::row_views(old(g)@),
            end == (if r + len < total {
                r + len
            } else {
                total as int
            }),
            total == old(g)@.len(),
        decreases end - i,
    {
        assert(song::row_views(g@)[i as int] == before[i as int]);
        assert(song::row_views(g@)[i as int] == g@[i as int]@);
        if g[i][ch].note.is_some() {
            assert(song::row_views(g@) =~= note_placed(
                before,
                ch as int,
                r as nat,
                x,
                len as nat,
            ));
            return;
        }
        let ghost was = song::row_views(g@);
        let mut row: [Cell; CHANNELS] = g[i];
        row[ch] = Cell::hold();
        g[i] = row;
        assert(song::row_views(g@)[i as int] =~= before[i as int].update(
            ch as int,
            song::hold_cell(),
        ));
        assert forall|j: int| 0 <= j < total implies #[trigger] song::row_views(g@)[j] == (if j == r {
            before[j].update(ch as int, x)
        } else if r < j < i + 1 {
            before[j].update(ch as int, song::hold_cell())
        } else {
            before[j]
        }) by {
            if j != i {
                assert(song::row_views(g@)[j] == was[j]);
            }
        }
        i += 1;
    }
    assert(song::row_views(g@) =~= note_placed(before, ch as int, r as nat, x, len as nat));
}

proof fn lemma_lane_end(l: Seq<Option<RowNote>>, k: nat, r: int)
    requires
        0 <= r < k,
        k <= l.len(),
        l[r] is Some,
    ensures
        r + l[r]->0.len_rows <= lane_end(l, k),
    decreases k,
{
    if r < k - 1 {
        lemma_lane_end(l, (k - 1) as nat, r);
    }
}

fn place_lane(g: &mut Vec<[Cell; CHANNELS]>, l: &Vec<Option<RowNote>>, t: &TrackMap)
    requires
        t.ch is Some,
        t.ch->0 < CHANNELS,
        lane_end(l@, l@.len()) <= old(g)@.len(),
        forall|i: int| 0 <= i < l@.len() && #[trigger] l@[i] is Some ==> l@[i]->0.len_rows >= 1,
    ensures
        song::row_views(final(g)@) == lane_placed(
            song::row_views(old(g)@),
            l@,
            t@,
            l@.len(),
        ),
        final(g)@.len() == old(g)@.len(),
{
    let ghost before = song::row_views(g@);
    let ch: usize = match t.ch {
        Some(c) => c,
        None => 0,
    };
    let total: usize = g.len();
    for r in 0..l.len()
        invariant
            t.ch == Some(ch),
            ch < CHANNELS,
            lane_end(l@, l@.len()) <= total,
            total == g@.len(),
            g@.len() == old(g)@.len(),
            forall|i: int|
                0 <= i < l@.len() && #[trigger] l@[i] is Some ==> l@[i]->0.len_rows >= 1,
            song::row_views(g@) == lane_placed(before, l@, t@, r as nat),
    {
        if let Some(n) = l[r] {
            proof {
                lemma_lane_end(l@, l@.len(), r as int);
                assert(l@[r as int] is Some);
            }
            let fx: Option<(u8, u8)> = match t.vibrato {
                Some(v) => if n.len_rows >= t.vibrato_min_rows {
                    Some(v)
                } else {
                    None
                },
                None => None,
            };
            let x: Cell = Cell { note: Some(n.key), instr: t.instr, vol: 0, fx, hold: false };
            assert(x == lane_cell(n, t@));
            place_note(g, ch, r, x, n.len_rows);
        }
    }
}

/// The keys struck on row `r` among the first `k` notes.
pub open spec fn row_keys(notes: Seq<MidiNote>, rt: nat, r: nat, k: nat) -> Seq<u8>
    decreases k,
{
    if k == 0 {
        Seq::empty()
    } else {
        let before = row_keys(notes, rt, r, (k - 1) as nat);
        if row_of(notes[k - 1].tick, rt) == r {
            before.push(notes[k - 1].key)
        } else {
            before
        }
    }
}

/// The row after the last onset of the first `k` notes.
pub open spec fn last_onset(notes: Seq<MidiNote>, rt: nat, k: nat) -> nat
    decreases k,
{
    if k == 0 {
        0
    } else {
        let before = last_onset(notes, rt, (k - 1) as nat);
        if row_of(notes[k - 1].tick, rt) + 1 > before {
            row_of(notes[k - 1].tick, rt) + 1
        } else {
            before
        }
    }
}

proof fn lemma_last_onset(notes: Seq<MidiNote>, rt: nat, k: nat)
    requires
        k <= notes.len(),
    ensures
        last_onset(notes, rt, k) <= last_end(notes, rt, k),
        forall|i: int|
            0 <= i < k ==> row_of((#[trigger] notes[i]).tick, rt) < last_onset(notes, rt, k),
    decreases k,
{
    if k > 0 {
        lemma_last_onset(notes, rt, (k - 1) as nat);
    }
}

fn find_onset(notes: &Vec<MidiNote>, rt: u64) -> (r: usize)
    requires
        rt > 0,
        last_end(notes@, rt as nat, notes@.len()) <= usize::MAX,
    ensures
        r == last_onset(notes@, rt as nat, notes@.len()),
{
    let mut last: usize = 0;
    for i in 0..notes.len()
        invariant
            rt > 0,
            last_end(notes@, rt as nat, notes@.len()) <= usize::MAX,
            last == last_onset(notes@, rt as nat, i as nat),
    {
        proof {
            lemma_last_end(notes@, rt as nat, notes@.len(), i as int);
        }
        let r: usize = find_row(notes[i].tick, rt) as usize + 1;
        if r > last {
            last = r;
        }
    }
    last
}

pub open spec fn key_views(v: Seq<Vec<u8>>) -> Seq<Seq<u8>> {
    v.map_values(|c: Vec<u8>| c@)
}

pub open spec fn key_rows(notes: Seq<MidiNote>, rt: nat, total: nat) -> Seq<Seq<u8>> {
    Seq::new(total, |r: int| row_keys(notes, rt, r as nat, notes.len()))
}

fn split_keys(notes: &Vec<MidiNote>, rt: u64, total: usize) -> (r: Vec<Vec<u8>>)
    requires
        rt > 0,
        last_onset(notes@, rt as nat, notes@.len()) <= total,
    ensures
        key_views(r@) == key_rows(notes@, rt as nat, total as nat),
        r@.len() == total,
{
    let ghost ns = notes@;
    let mut rows: Vec<Vec<u8>> = Vec::new();
    for i in 0..total
        invariant
            rows@.len() == i,
            forall|j: int| 0 <= j < i ==> (#[trigger] rows@[j])@.len() == 0,
    {
        rows.push(Vec::new());
    }
    assert forall|j: int| 0 <= j < total implies (#[trigger] rows@[j])@ == row_keys(
        ns,
        rt as nat,
        j as nat,
        0,
    ) by {
        assert(rows@[j]@ =~= Seq::empty());
    }
    proof {
        lemma_last_onset(ns, rt as nat, ns.len());
    }
    for i in 0..notes.len()
        invariant
            rt > 0,
            ns == notes@,
            last_onset(ns, rt as nat, ns.len()) <= total,
            forall|i: int|
                0 <= i < ns.len() ==> row_of((#[trigger] ns[i]).tick, rt as nat) < last_onset(
                    ns,
                    rt as nat,
                    ns.len(),
                ),
            rows@.len() == total,
            forall|j: int|
                0 <= j < total ==> (#[trigger] rows@[j])@ == row_keys(
                    ns,
                    rt as nat,
                    j as nat,
                    i as nat,
                ),
    {
        let n: MidiNote = notes[i];
        assert(row_of(ns[i as int].tick, rt as nat) < total);
        let at: usize = find_row(n.tick, rt) as usize;
        let ghost before = rows@;
        let mut c: Vec<u8> = Vec::new();
        std::mem::swap(&mut c, &mut rows[at]);
        c.push(n.key);
        rows[at] = c;
        assert forall|j: int| 0 <= j < total implies (#[trigger] rows@[j])@ == row_keys(
            ns,
            rt as nat,
            j as nat,
            (i + 1) as nat,
        ) by {
            assert(before[j]@ == row_keys(ns, rt as nat, j as nat, i as nat));
            if j == at {
                assert(rows@[j]@ =~= before[j]@.push(n.key));
            } else {
                assert(rows@[j] == before[j]);
            }
        }
    }
    assert(key_views(rows@) =~= key_rows(ns, rt as nat, total as nat));
    rows
}

/// What the drums did.
#[verifier::ext_equal]
pub struct DrumTally {
    pub grid: Seq<Seq<Cell>>,
    pub dpcm_conflicts: nat,
    pub noi_conflicts: nat,
    pub fallbacks: nat,
    pub dropped: nat,
}

/// A row with its drums.
pub open spec fn drummed(row: Seq<Cell>, d: DrumRow) -> Seq<Cell> {
    let a = match d.dpcm {
        Some(n) => row.update(4, compose::plain_cell(Some(n), 0)),
        None => row,
    };
    match d.noi {
        Some((n, i)) => a.update(3, compose::plain_cell(Some(n), i)),
        None => a,
    }
}

/// The grid with the drums of its first `k` rows.
pub open spec fn drums_placed(g: Seq<Seq<Cell>>, map: MapView, keys: Seq<Seq<u8>>, k: nat) -> DrumTally
    decreases k,
{
    if k == 0 {
        DrumTally { grid: g, dpcm_conflicts: 0, noi_conflicts: 0, fallbacks: 0, dropped: 0 }
    } else {
        let t = drums_placed(g, map, keys, (k - 1) as nat);
        let d = drum_row(map, keys[k - 1]);
        DrumTally {
            grid: t.grid.update(k - 1, drummed(t.grid[k - 1], d)),
            dpcm_conflicts: t.dpcm_conflicts + (if d.dpcm_conflict {
                1nat
            } else {
                0nat
            }),
            noi_conflicts: t.noi_conflicts + (if d.noi_conflict {
                1nat
            } else {
                0nat
            }),
            fallbacks: t.fallbacks + d.fallbacks,
            dropped: t.dropped + d.dropped,
        }
    }
}

fn place_drums(g: &mut Vec<[Cell; CHANNELS]>, map: &ImportMap, keys: &Vec<Vec<u8>>) -> (r: (
    usize,
    usize,
    usize,
    usize,
))
    requires
        keys@.len() == old(g)@.len(),
        keys@.len() * 256 <= usize::MAX,
        forall|k: u8| #[trigger]
            map@.drums.contains_key(k) ==> match map@.drums[k] {
                DrumTarget::Dpcm(slot) => slot <= 195,
                DrumTarget::Noi { .. } => true,
            },
    ensures
        ({
            let t = drums_placed(
                song::row_views(old(g)@),
                map@,
                key_views(keys@),
                keys@.len(),
            );
            &&& song::row_views(final(g)@) == t.grid
            &&& r.0 == t.dpcm_conflicts
            &&& r.1 == t.noi_conflicts
            &&& r.2 == t.fallbacks
            &&& r.3 == t.dropped
        }),
        final(g)@.len() == old(g)@.len(),
{
    let ghost start = song::row_views(g@);
    let ghost all = key_views(keys@);
    let mut dpcm: usize = 0;
    let mut noi: usize = 0;
    let mut falls: usize = 0;
    let mut drops: usize = 0;
    for r in 0..keys.len()
        invariant
            all == key_views(keys@),
            keys@.len() == g@.len(),
            g@.len() == old(g)@.len(),
            keys@.len() * 256 <= usize::MAX,
            forall|k: u8| #[trigger]
                map@.drums.contains_key(k) ==> match map@.drums[k] {
                    DrumTarget::Dpcm(slot) => slot <= 195,
                    DrumTarget::Noi { .. } => true,
                },
            drums_placed(start, map@, all, r as nat) == (DrumTally {
                grid: song::row_views(g@),
                dpcm_conflicts: dpcm as nat,
                noi_conflicts: noi as nat,
                fallbacks: falls as nat,
                dropped: drops as nat,
            }),
            dpcm <= r,
            noi <= r,
            falls <= 256 * r,
            drops <= 256 * r,
    {
        assert(all[r as int] == keys@[r as int]@);
        let d: DrumCells = drum_cells(map, &keys[r]);
        let ghost before = song::row_views(g@);
        let mut row: [Cell; CHANNELS] = g[r];
        assert(before[r as int] == row@);
        if let Some(n) = d.dpcm {
            row[4] = Cell { note: Some(n), instr: 0, vol: 0, fx: None, hold: false };
        }
        if let Some((n, i)) = d.noi {
            row[3] = Cell { note: Some(n), instr: i, vol: 0, fx: None, hold: false };
        }
        assert(row@ =~= drummed(before[r as int], d@));
        g[r] = row;
        assert(song::row_views(g@) =~= before.update(r as int, row@));
        if d.dpcm_conflict {
            dpcm += 1;
        }
        if d.noi_conflict {
            noi += 1;
        }
        falls += d.fallbacks;
        drops += d.dropped;
    }
    (dpcm, noi, falls, drops)
}

// ---------------------------------------------------------------- tempo

/// Beats per minute, rounded, from microseconds per quarter.
pub open spec fn bpm_of(us: u32) -> u16 {
    if us == 0 {
        u16::MAX
    } else {
        let b = (120_000_000 + us) / (2 * us);
        if b > u16::MAX {
            u16::MAX
        } else {
            b as u16
        }
    }
}

/// Whether two tempos differ by more than half a beat per minute.
pub open spec fn tempos_differ(a: u32, b: u32) -> bool {
    let d = if a < b {
        b - a
    } else {
        a - b
    };
    120_000_000 * d > a * b
}

/// The file's first tempo; 120 beats per minute where it has none.
pub open spec fn first_tempo(m: MidiView) -> u32 {
    if m.tempos.len() > 0 {
        m.tempos[0].1
    } else {
        500_000
    }
}

/// Whether the tempo changes on the way.
pub open spec fn tempo_changes(m: MidiView) -> bool {
    exists|i: int|
        0 <= i < m.tempos.len() && tempos_differ((#[trigger] m.tempos[i]).1, first_tempo(m))
}

fn find_bpm(us: u32) -> (r: u16)
    ensures
        r == bpm_of(us),
{
    if us == 0 {
        return u16::MAX;
    }
    let b: u64 = (120_000_000 + us as u64) / (2 * us as u64);
    if b > u16::MAX as u64 {
        u16::MAX
    } else {
        b as u16
    }
}

fn has_changes(midi: &Midi) -> (r: bool)
    ensures
        r == tempo_changes(midi@),
{
    if midi.tempos.len() == 0 {
        return false;
    }
    let first: u32 = midi.tempos[0].1;
    let mut i: usize = 0;
    while i < midi.tempos.len()
        invariant
            i <= midi.tempos@.len(),
            first == first_tempo(midi@),
            forall|j: int| 0 <= j < i ==> !tempos_differ((#[trigger] midi@.tempos[j]).1, first),
        decreases midi.tempos@.len() - i,
    {
        let us: u32 = midi.tempos[i].1;
        let d: u32 = if us < first {
            first - us
        } else {
            us - first
        };
        assert(us * first <= 0xffff_ffff * 0xffff_ffff) by (nonlinear_arith)
            requires
                us <= 0xffff_ffff,
                first <= 0xffff_ffff,
        ;
        let product: u128 = us as u128 * first as u128;
        if 120_000_000 * d as u128 > product {
            assert(tempos_differ(midi@.tempos[i as int].1, first));
            return true;
        }
        assert(!tempos_differ(midi@.tempos[i as int].1, first));
        i += 1;
    }
    false
}

// ---------------------------------------------------------------- the whole

/// What arranging a file took.
#[derive(Debug)]
pub struct Report {
    pub bpm: u16,
    pub rows: usize,
    pub phrases_total: usize,
    pub phrases_unique: usize,
    pub tracks: Vec<String>,
    pub chords_flattened: usize,
    pub voiced_chords: usize,
    pub notes_clamped: usize,
    pub drum_dpcm_conflicts: usize,
    pub drum_fallbacks: usize,
    pub drum_dropped: usize,
    pub noi_conflicts: usize,
    /// Microseconds per quarter of the tempo used, where others are ignored.
    pub ignored_tempos: Option<u32>,
}

#[verifier::ext_equal]
pub struct ReportView {
    pub bpm: u16,
    pub rows: nat,
    pub phrases_total: nat,
    pub phrases_unique: nat,
    pub tracks: Seq<Seq<char>>,
    pub chords_flattened: nat,
    pub voiced_chords: nat,
    pub notes_clamped: nat,
    pub drum_dpcm_conflicts: nat,
    pub drum_fallbacks: nat,
    pub drum_dropped: nat,
    pub noi_conflicts: nat,
    pub ignored_tempos: Option<u32>,
}

impl View for Report {
    type V = ReportView;

    open spec fn view(&self) -> ReportView {
        ReportView {
            bpm: self.bpm,
            rows: self.rows as nat,
            phrases_total: self.phrases_total as nat,
            phrases_unique: self.phrases_unique as nat,
            tracks: text::texts(self.tracks@),
            chords_flattened: self.chords_flattened as nat,
            voiced_chords: self.voiced_chords as nat,
            notes_clamped: self.notes_clamped as nat,
            drum_dpcm_conflicts: self.drum_dpcm_conflicts as nat,
            drum_fallbacks: self.drum_fallbacks as nat,
            drum_dropped: self.drum_dropped as nat,
            noi_conflicts: self.noi_conflicts as nat,
            ignored_tempos: self.ignored_tempos,
        }
    }
}

/// The chords of a pitched track.
pub open spec fn route_rows(m: MidiView, p: (usize, usize)) -> Seq<Seq<(u8, usize)>> {
    chord_rows(m.tracks[p.0 as int], row_ticks(m), span(m))
}

/// The voicings of the two pulses, where both are played.
pub open spec fn pulse_voicings(m: MidiView, map: MapView, pitched: Seq<(usize, usize)>) -> Seq<
    Option<(u8, u8)>,
> {
    match (on_channel(map, pitched, 0, 0), on_channel(map, pitched, 1, 0)) {
        (Some(a), Some(b)) => voicings(
            route_rows(m, pitched[a as int]),
            route_rows(m, pitched[b as int]),
        ),
        _ => Seq::new(span(m), |r: int| None),
    }
}

/// The keys that voicings give to pitched track `i`.
pub open spec fn voiced_keys(
    m: MidiView,
    map: MapView,
    pitched: Seq<(usize, usize)>,
    i: nat,
) -> Seq<Option<u8>> {
    let vs = pulse_voicings(m, map, pitched);
    let first = on_channel(map, pitched, 0, 0) == Some(i);
    let second = on_channel(map, pitched, 1, 0) == Some(i);
    Seq::new(
        span(m),
        |r: int|
            match vs[r] {
                Some((f, root)) => if first {
                    Some(f)
                } else if second {
                    Some(root)
                } else {
                    None
                },
                None => None,
            },
    )
}

/// The lane of pitched track `i`.
pub open spec fn route_lane(m: MidiView, map: MapView, pitched: Seq<(usize, usize)>, i: nat) -> Lane {
    lane(
        route_rows(m, pitched[i as int]),
        voiced_keys(m, map, pitched, i),
        map.tracks[pitched[i as int].1 as int],
        map.transpose,
        span(m),
    )
}

/// How far the first `k` lanes reach.
pub open spec fn lanes_end(m: MidiView, map: MapView, pitched: Seq<(usize, usize)>, k: nat) -> nat
    decreases k,
{
    if k == 0 {
        0
    } else {
        let before = lanes_end(m, map, pitched, (k - 1) as nat);
        let end = lane_end(route_lane(m, map, pitched, (k - 1) as nat).notes, span(m));
        if end > before {
            end
        } else {
            before
        }
    }
}

/// Chords flattened and keys moved for the first `k` lanes.
pub open spec fn lanes_tally(m: MidiView, map: MapView, pitched: Seq<(usize, usize)>, k: nat) -> (
    nat,
    nat,
)
    decreases k,
{
    if k == 0 {
        (0, 0)
    } else {
        let (f, c) = lanes_tally(m, map, pitched, (k - 1) as nat);
        let l = route_lane(m, map, pitched, (k - 1) as nat);
        (f + l.flattened, c + l.clamped)
    }
}

/// The grid with the first `k` lanes placed.
pub open spec fn lanes_placed(
    g: Seq<Seq<Cell>>,
    m: MidiView,
    map: MapView,
    pitched: Seq<(usize, usize)>,
    k: nat,
) -> Seq<Seq<Cell>>
    decreases k,
{
    if k == 0 {
        g
    } else {
        lane_placed(
            lanes_placed(g, m, map, pitched, (k - 1) as nat),
            route_lane(m, map, pitched, (k - 1) as nat).notes,
            map.tracks[pitched[k - 1].1 as int],
            span(m),
        )
    }
}

pub open spec fn empty_rows(total: nat) -> Seq<Seq<Cell>> {
    Seq::new(total, |i: int| Seq::new(CHANNELS as nat, |c: int| song::empty_cell()))
}

pub open spec fn drum_notes(m: MidiView, r: Routing) -> Seq<MidiNote> {
    match r.drums {
        Some(i) => m.tracks[i as int].notes,
        None => Seq::empty(),
    }
}

/// How many rows the song has: enough for all notes, in whole phrases.
pub open spec fn total_rows(m: MidiView, map: MapView, r: Routing) -> nat {
    let a = lanes_end(m, map, r.pitched, r.pitched.len());
    let notes = drum_notes(m, r);
    let b = last_onset(notes, row_ticks(m), notes.len());
    let last = if b > a {
        b
    } else {
        a
    };
    ((last + 15) / 16 * 16) as nat
}

/// Phrase `p` of a grid.
pub open spec fn phrase_at(g: Seq<Seq<Cell>>, p: int) -> Seq<Seq<Cell>> {
    Seq::new(STEPS_PER_PHRASE as nat, |s: int| g[p * 16 + s])
}

/// Phrases and order after the first `k` phrases of a grid.
pub open spec fn cut(g: Seq<Seq<Cell>>, k: nat) -> (Seq<Seq<Seq<Cell>>>, Seq<usize>)
    decreases k,
{
    if k == 0 {
        (Seq::empty(), Seq::empty())
    } else {
        compose::played_bar(cut(g, (k - 1) as nat), phrase_at(g, k - 1))
    }
}

pub open spec fn credited(map: MapView) -> Seq<char> {
    if map.arranger.len() == 0 {
        map.artist
    } else {
        map.artist + " (arr. "@ + map.arranger + ")"@
    }
}

/// The filled grid, with what the drums did.
pub open spec fn filled(m: MidiView, map: MapView, r: Routing) -> DrumTally {
    let total = total_rows(m, map, r);
    drums_placed(
        lanes_placed(empty_rows(total), m, map, r.pitched, r.pitched.len()),
        map,
        key_rows(drum_notes(m, r), row_ticks(m), total),
        total,
    )
}

/// The song and the report that a file and a map give.
pub open spec fn arranged(m: MidiView, map: MapView) -> Result<(SongView, ReportView), ImportError> {
    match routing(m, map, map.tracks.len()) {
        Err(e) => Err(e),
        Ok(r) => {
            let d = filled(m, map, r);
            let total = total_rows(m, map, r);
            let (phrases, order) = cut(d.grid, total / 16);
            if phrases.len() > 256 {
                Err(ImportError::TooManyPhrases(phrases.len() as usize))
            } else {
                let bpm = match map.bpm {
                    Some(b) => b,
                    None => bpm_of(first_tempo(m)),
                };
                let (flattened, clamped) = lanes_tally(m, map, r.pitched, r.pitched.len());
                Ok(
                    (
                        SongView {
                            bpm,
                            phrases,
                            order,
                            loop_pos: 0,
                            current_phrase: if order.len() > 0 {
                                order[0]
                            } else {
                                0
                            },
                            instruments: compose::instruments_of(
                                map.instruments,
                                map.instruments.len(),
                            ),
                            title: map.title,
                            artist: credited(map),
                            samples: map.samples,
                            driver: map.driver,
                            ..song::default_song()
                        },
                        ReportView {
                            bpm,
                            rows: total,
                            phrases_total: total / 16,
                            phrases_unique: phrases.len(),
                            tracks: r.lines,
                            chords_flattened: flattened,
                            voiced_chords: count_voiced(
                                pulse_voicings(m, map, r.pitched),
                                span(m),
                            ),
                            notes_clamped: clamped,
                            drum_dpcm_conflicts: d.dpcm_conflicts,
                            drum_fallbacks: d.fallbacks,
                            drum_dropped: d.dropped,
                            noi_conflicts: d.noi_conflicts,
                            ignored_tempos: if map.bpm is None && tempo_changes(m) {
                                Some(first_tempo(m))
                            } else {
                                None
                            },
                        },
                    ),
                )
            }
        },
    }
}

proof fn lemma_len_of_key(c: Seq<(u8, usize)>, key: u8, i: nat, top: int)
    requires
        top >= 1,
        forall|j: int| 0 <= j < c.len() ==> 1 <= (#[trigger] c[j]).1 <= top,
    ensures
        1 <= len_of_key(c, key, i) <= top,
    decreases c.len() - i,
{
    if i < c.len() && c[i as int].0 != key {
        lemma_len_of_key(c, key, i + 1, top);
    }
}

proof fn lemma_extremes(c: Seq<(u8, usize)>, k: nat)
    requires
        1 <= k <= c.len(),
    ensures
        lowest(c, k) < k,
        highest(c, k) < k,
    decreases k,
{
    if k > 1 {
        lemma_extremes(c, (k - 1) as nat);
    }
}

/// A lane stays within what its track covers.
proof fn lemma_lane_bounds(
    t: TrackView,
    rt: nat,
    total: nat,
    voiced: Seq<Option<u8>>,
    tm: TrackMapView,
    transpose: i32,
    k: nat,
)
    requires
        k <= total,
        last_end(t.notes, rt, t.notes.len()) <= total <= usize::MAX,
    ensures
        ({
            let l = lane(chord_rows(t, rt, total), voiced, tm, transpose, k).notes;
            &&& l.len() == k
            &&& lane_end(l, k) <= total
            &&& forall|r: int|
                0 <= r < k && #[trigger] l[r] is Some ==> l[r]->0.len_rows >= 1
        }),
    decreases k,
{
    if k > 0 {
        lemma_lane_bounds(t, rt, total, voiced, tm, transpose, (k - 1) as nat);
        let rows = chord_rows(t, rt, total);
        let before = lane(rows, voiced, tm, transpose, (k - 1) as nat).notes;
        let l = lane(rows, voiced, tm, transpose, k).notes;
        let c = rows[k - 1];
        assert(c == row_notes(t.notes, rt, (k - 1) as nat, t.notes.len()));
        assert forall|j: int| 0 <= j < c.len() implies 1 <= (#[trigger] c[j]).1 <= total - (k
            - 1) by {
            lemma_row_notes_nonempty(t.notes, rt, (k - 1) as nat, t.notes.len(), j);
        }
        if c.len() > 0 {
            assert(1 <= c[0].1 <= total - (k - 1));
            lemma_extremes(c, c.len());
            if let Some(key) = voiced[k - 1] {
                lemma_len_of_key(c, key, 0, total - (k - 1));
            }
        }
        lemma_lane_end_prefix(before, l, (k - 1) as nat);
    }
}

proof fn lemma_lane_end_prefix(a: Seq<Option<RowNote>>, b: Seq<Option<RowNote>>, k: nat)
    requires
        k <= a.len(),
        k <= b.len(),
        forall|i: int| 0 <= i < k ==> #[trigger] a[i] == b[i],
    ensures
        lane_end(a, k) == lane_end(b, k),
    decreases k,
{
    if k > 0 {
        lemma_lane_end_prefix(a, b, (k - 1) as nat);
        assert(a[k - 1] == b[k - 1]);
    }
}

fn find_lane_end(l: &Vec<Option<RowNote>>) -> (r: usize)
    requires
        lane_end(l@, l@.len()) <= usize::MAX,
    ensures
        r == lane_end(l@, l@.len()),
{
    let mut end: usize = 0;
    for k in 0..l.len()
        invariant
            lane_end(l@, l@.len()) <= usize::MAX,
            end == lane_end(l@, k as nat),
    {
        if let Some(n) = l[k] {
            proof {
                lemma_lane_end(l@, l@.len(), k as int);
            }
            if k + n.len_rows > end {
                end = k + n.len_rows;
            }
        }
    }
    end
}

fn find_voicings(a: &Vec<Vec<(u8, usize)>>, b: &Vec<Vec<(u8, usize)>>) -> (r: (
    Vec<Option<(u8, u8)>>,
    usize,
))
    requires
        a@.len() == b@.len(),
    ensures
        r.0@ == voicings(chord_views(a@), chord_views(b@)),
        r.1 == count_voiced(r.0@, a@.len()),
        r.0@.len() == a@.len(),
{
    let ghost want = voicings(chord_views(a@), chord_views(b@));
    let mut out: Vec<Option<(u8, u8)>> = Vec::new();
    let mut n: usize = 0;
    for r in 0..a.len()
        invariant
            a@.len() == b@.len(),
            want == voicings(chord_views(a@), chord_views(b@)),
            out@.len() == r,
            forall|j: int| 0 <= j < r ==> #[trigger] out@[j] == want[j],
            n == count_voiced(want, r as nat),
            n <= r,
    {
        assert(chord_views(a@)[r as int] == a@[r as int]@);
        assert(chord_views(b@)[r as int] == b@[r as int]@);
        let v: Option<(u8, u8)> = voicing_of(&a[r], &b[r]);
        assert(v == want[r as int]);
        if v.is_some() {
            n += 1;
        }
        out.push(v);
    }
    assert(out@ =~= want);
    (out, n)
}

fn no_voicings(total: usize) -> (r: (Vec<Option<(u8, u8)>>, usize))
    ensures
        r.0@ == Seq::new(total as nat, |r: int| None::<(u8, u8)>),
        r.1 == count_voiced(r.0@, total as nat),
{
    let mut out: Vec<Option<(u8, u8)>> = Vec::new();
    let ghost want = Seq::new(total as nat, |r: int| None::<(u8, u8)>);
    for r in 0..total
        invariant
            out@.len() == r,
            forall|j: int| 0 <= j < r ==> #[trigger] out@[j] is None,
            want == Seq::new(total as nat, |r: int| None::<(u8, u8)>),
            count_voiced(want, r as nat) == 0,
    {
        out.push(None);
    }
    assert(out@ =~= want);
    (out, 0)
}

fn keys_for(vs: &Vec<Option<(u8, u8)>>, first: bool, second: bool) -> (r: Vec<Option<u8>>)
    ensures
        r@ == Seq::new(
            vs@.len(),
            |r: int|
                match vs@[r] {
                    Some((f, root)) => if first {
                        Some(f)
                    } else if second {
                        Some(root)
                    } else {
                        None
                    },
                    None => None,
                },
        ),
{
    let ghost want = Seq::new(
        vs@.len(),
        |r: int|
            match vs@[r] {
                Some((f, root)) => if first {
                    Some(f)
                } else if second {
                    Some(root)
                } else {
                    None
                },
                None => None,
            },
    );
    let mut out: Vec<Option<u8>> = Vec::new();
    for r in 0..vs.len()
        invariant
            want.len() == vs@.len(),
            forall|j: int|
                0 <= j < vs@.len() ==> #[trigger] want[j] == (match vs@[j] {
                    Some((f, root)) => if first {
                        Some(f)
                    } else if second {
                        Some(root)
                    } else {
                        None
                    },
                    None => None,
                }),
            out@.len() == r,
            forall|j: int| 0 <= j < r ==> #[trigger] out@[j] == want[j],
    {
        let k: Option<u8> = match vs[r] {
            Some((f, root)) => if first {
                Some(f)
            } else if second {
                Some(root)
            } else {
                None
            },
            None => None,
        };
        assert(k == want[r as int]);
        out.push(k);
    }
    assert(out@ =~= want);
    out
}

/// How far the notes of a file reach.
fn measure(midi: &Midi, rt: u64) -> (r: u128)
    requires
        rt > 0,
    ensures
        r == span_of(midi@.tracks, rt as nat, midi@.tracks.len()),
        r <= 0x8_0000_0000_0000_0000,
{
    let ghost ts = midi@.tracks;
    assert(ts.len() == midi.tracks@.len());
    let mut far: u128 = 0;
    for i in 0..midi.tracks.len()
        invariant
            rt > 0,
            ts == smf::track_views(midi.tracks@),
            far == span_of(ts, rt as nat, i as nat),
            far <= 0x8_0000_0000_0000_0000,
    {
        assert(ts[i as int] == midi.tracks@[i as int]@);
        let notes: &Vec<MidiNote> = &midi.tracks[i].notes;
        let mut end: u128 = 0;
        for k in 0..notes.len()
            invariant
                rt > 0,
                end == last_end(notes@, rt as nat, k as nat),
                end <= 0x8_0000_0000_0000_0000,
        {
            let e: u128 = find_row(notes[k].tick, rt) + count_rows(notes[k].len, rt);
            if e > end {
                end = e;
            }
        }
        if end > far {
            far = end;
        }
    }
    far
}

/// The lanes of a song, with what was done to make them.
struct Lanes {
    notes: Vec<Vec<Option<RowNote>>>,
    flattened: usize,
    clamped: usize,
    voiced: usize,
    end: usize,
}

/// Every track's notes end within the span.
proof fn lemma_track_in_span(m: MidiView, i: int)
    requires
        0 <= i < m.tracks.len(),
    ensures
        last_end(m.tracks[i].notes, row_ticks(m), m.tracks[i].notes.len()) <= span(m),
{
    lemma_span(m.tracks, row_ticks(m), m.tracks.len(), i);
}

fn make_lanes(midi: &Midi, map: &ImportMap, pitched: &Vec<(usize, usize)>, rt: u64, total: usize) -> (r:
    Lanes)
    requires
        rt == row_ticks(midi@),
        rt > 0,
        total == span(midi@),
        (2 * map@.tracks.len() + 600) * (total + 16) <= usize::MAX,
        pitched@.len() <= map@.tracks.len(),
        forall|i: int|
            0 <= i < pitched@.len() ==> (#[trigger] pitched@[i]).0 < midi@.tracks.len()
                && pitched@[i].1 < map@.tracks.len(),
    ensures
        r.notes@.len() == pitched@.len(),
        forall|i: int|
            0 <= i < pitched@.len() ==> (#[trigger] r.notes@[i])@ == route_lane(
                midi@,
                map@,
                pitched@,
                i as nat,
            ).notes,
        (r.flattened as nat, r.clamped as nat) == lanes_tally(
            midi@,
            map@,
            pitched@,
            pitched@.len(),
        ),
        r.voiced == count_voiced(pulse_voicings(midi@, map@, pitched@), span(midi@)),
        r.end == lanes_end(midi@, map@, pitched@, pitched@.len()),
        r.end <= total,
{
    let ghost m = midi@;
    let ghost mv = map@;
    let ghost n_tracks = mv.tracks.len();
    proof {
        assert(m.tracks.len() == midi.tracks@.len());
        assert(mv.tracks.len() == map.tracks@.len());
        assert(n_tracks * total * 2 + 600 * total + 32 * n_tracks + 16 * 600 == (2 * n_tracks + 600)
            * (total + 16)) by (nonlinear_arith);
        assert(n_tracks * total >= 0) by (nonlinear_arith)
            requires
                n_tracks >= 0,
                total >= 0,
        ;
    }
    let mut rows: Vec<Vec<Vec<(u8, usize)>>> = Vec::new();
    for i in 0..pitched.len()
        invariant
            m == midi@,
            m.tracks.len() == midi.tracks@.len(),
            rt == row_ticks(m),
            rt > 0,
            total == span(m),
            forall|i: int|
                0 <= i < pitched@.len() ==> (#[trigger] pitched@[i]).0 < m.tracks.len(),
            rows@.len() == i,
            forall|j: int|
                0 <= j < i ==> chord_views((#[trigger] rows@[j])@) == route_rows(m, pitched@[j])
                    && rows@[j]@.len() == total,
    {
        let t: usize = pitched[i].0;
        assert(m.tracks[t as int] == midi.tracks@[t as int]@);
        proof {
            lemma_track_in_span(m, t as int);
        }
        rows.push(split_rows(&midi.tracks[t], rt, total));
    }
    let a: Option<usize> = find_on_channel(map, pitched, 0);
    let b: Option<usize> = find_on_channel(map, pitched, 1);
    let (vs, voiced): (Vec<Option<(u8, u8)>>, usize) = match (a, b) {
        (Some(x), Some(y)) => find_voicings(&rows[x], &rows[y]),
        _ => no_voicings(total),
    };
    proof {
        assert(vs@ =~= pulse_voicings(m, mv, pitched@));
        assert(vs@.len() == total);
    }
    let mut out: Lanes = Lanes {
        notes: Vec::new(),
        flattened: 0,
        clamped: 0,
        voiced,
        end: 0,
    };
    for i in 0..pitched.len()
        invariant
            m == midi@,
            mv == map@,
            m.tracks.len() == midi.tracks@.len(),
            mv.tracks.len() == map.tracks@.len(),
            n_tracks == mv.tracks.len(),
            rt == row_ticks(m),
            total == span(m),
            n_tracks * total * 2 + 600 * total <= usize::MAX,
            pitched@.len() <= n_tracks,
            forall|i: int|
                0 <= i < pitched@.len() ==> (#[trigger] pitched@[i]).0 < m.tracks.len()
                    && pitched@[i].1 < mv.tracks.len(),
            rows@.len() == pitched@.len(),
            forall|j: int|
                0 <= j < pitched@.len() ==> chord_views((#[trigger] rows@[j])@) == route_rows(
                    m,
                    pitched@[j],
                ) && rows@[j]@.len() == total,
            vs@ == pulse_voicings(m, mv, pitched@),
            vs@.len() == total,
            match a {
                Some(x) => on_channel(mv, pitched@, 0, 0) == Some(x as nat),
                None => on_channel(mv, pitched@, 0, 0) is None,
            },
            match b {
                Some(x) => on_channel(mv, pitched@, 1, 0) == Some(x as nat),
                None => on_channel(mv, pitched@, 1, 0) is None,
            },
            out.notes@.len() == i,
            forall|j: int|
                0 <= j < i ==> (#[trigger] out.notes@[j])@ == route_lane(
                    m,
                    mv,
                    pitched@,
                    j as nat,
                ).notes,
            (out.flattened as nat, out.clamped as nat) == lanes_tally(m, mv, pitched@, i as nat),
            out.end == lanes_end(m, mv, pitched@, i as nat),
            out.end <= total,
            out.flattened <= i * total,
            out.clamped <= i * total * 2,
            out.voiced == voiced,
    {
        let (ti, mi): (usize, usize) = pitched[i];
        let first: bool = match a {
            Some(x) => x == i,
            None => false,
        };
        let second: bool = match b {
            Some(x) => x == i,
            None => false,
        };
        let keys: Vec<Option<u8>> = keys_for(&vs, first, second);
        assert(keys@ =~= voiced_keys(m, mv, pitched@, i as nat));
        assert(mv.tracks[mi as int] == map.tracks@[mi as int]@);
        let (notes, flat, moved): (Vec<Option<RowNote>>, usize, usize) = make_lane(
            &rows[i],
            &keys,
            &map.tracks[mi],
            map.transpose,
        );
        let ghost l = route_lane(m, mv, pitched@, i as nat);
        proof {
            lemma_track_in_span(m, ti as int);
            lemma_lane_bounds(
                m.tracks[ti as int],
                rt as nat,
                total as nat,
                keys@,
                mv.tracks[mi as int],
                mv.transpose,
                total as nat,
            );
            assert(notes@ == l.notes);
            assert((i + 1) * total == i * total + total) by (nonlinear_arith);
            assert((i + 1) * total * 2 == i * total * 2 + total * 2) by (nonlinear_arith);
            assert((i + 1) * total <= n_tracks * total) by (nonlinear_arith)
                requires
                    i + 1 <= n_tracks,
                    total >= 0,
            ;
        }
        let end: usize = find_lane_end(&notes);
        if end > out.end {
            out.end = end;
        }
        out.flattened = out.flattened + flat;
        out.clamped = out.clamped + moved;
        out.notes.push(notes);
    }
    out
}

fn blank_grid(total: usize) -> (r: Vec<[Cell; CHANNELS]>)
    ensures
        song::row_views(r@) == empty_rows(total as nat),
        r@.len() == total,
{
    let blank: [Cell; CHANNELS] = song::empty_row();
    let mut g: Vec<[Cell; CHANNELS]> = Vec::new();
    for i in 0..total
        invariant
            g@.len() == i,
            forall|j: int| 0 <= j < i ==> #[trigger] g@[j] == blank,
    {
        g.push(blank);
    }
    assert forall|j: int| 0 <= j < total implies #[trigger] song::row_views(g@)[j] == empty_rows(
        total as nat,
    )[j] by {
        assert(g@[j]@ =~= empty_rows(total as nat)[j]);
    }
    assert(song::row_views(g@) =~= empty_rows(total as nat));
    g
}

fn cut_phrases(g: &Vec<[Cell; CHANNELS]>) -> (r: (Vec<Phrase>, Vec<usize>))
    requires
        g@.len() % 16 == 0,
    ensures
        (song::grids(r.0@), r.1@) == cut(song::row_views(g@), (g@.len() / 16) as nat),
        r.0@.len() <= usize::MAX,
{
    let ghost rows = song::row_views(g@);
    let len: usize = g.len();
    let n: usize = len / 16;
    let mut phrases: Vec<Phrase> = Vec::new();
    let mut order: Vec<usize> = Vec::new();
    assert(song::grids(phrases@) =~= Seq::<Seq<Seq<Cell>>>::empty());
    for p in 0..n
        invariant
            rows == song::row_views(g@),
            len == g@.len(),
            n == len / 16,
            len % 16 == 0,
            (song::grids(phrases@), order@) == cut(rows, p as nat),
    {
        let mut ph: Phrase = Phrase::default();
        for s in 0..STEPS_PER_PHRASE
            invariant
                rows == song::row_views(g@),
                p < n,
                len == g@.len(),
                n == len / 16,
                forall|j: int| 0 <= j < s ==> #[trigger] ph@[j] == rows[p * 16 + j],
        {
            let ghost before = ph@;
            ph.cells[s] = g[p * 16 + s];
            assert(ph@[s as int] == rows[p * 16 + s]);
            assert forall|j: int| 0 <= j < s implies #[trigger] ph@[j] == rows[p * 16 + j] by {
                assert(before[j] == ph@[j]);
            }
        }
        assert(ph@ =~= phrase_at(rows, p as int));
        compose::play_bar(&mut phrases, &mut order, &ph);
    }
    let _ = phrases.len();
    (phrases, order)
}

fn copy_samples(v: &Vec<song::DpcmRef>) -> (r: Vec<song::DpcmRef>)
    ensures
        song::sample_views(r@) == song::sample_views(v@),
{
    let mut out: Vec<song::DpcmRef> = Vec::new();
    for i in 0..v.len()
        invariant
            out@.len() == i,
            forall|k: int| 0 <= k < i ==> (#[trigger] out@[k])@ == v@[k]@,
    {
        out.push(song::copy_sample(&v[i]));
    }
    assert(song::sample_views(out@) =~= song::sample_views(v@));
    out
}

fn fill_grid(midi: &Midi, map: &ImportMap, routes: &Routes, lanes: &Lanes, rt: u64, total: usize) -> (r:
    (Vec<[Cell; CHANNELS]>, (usize, usize, usize, usize)))
    requires
        importable(midi@, map@),
        routes_sound(routes@, midi@, map@),
        rt == row_ticks(midi@),
        rt > 0,
        total == total_rows(midi@, map@, routes@),
        total <= span(midi@) + 15,
        lanes.notes@.len() == routes.pitched@.len(),
        forall|i: int|
            0 <= i < routes.pitched@.len() ==> (#[trigger] lanes.notes@[i])@ == route_lane(
                midi@,
                map@,
                routes.pitched@,
                i as nat,
            ).notes,
        lanes_end(midi@, map@, routes.pitched@, routes.pitched@.len()) <= total,
        last_onset(
            drum_notes(midi@, routes@),
            rt as nat,
            drum_notes(midi@, routes@).len(),
        ) <= total,
    ensures
        ({
            let d = filled(midi@, map@, routes@);
            &&& song::row_views(r.0@) == d.grid
            &&& r.0@.len() == total
            &&& r.1.0 == d.dpcm_conflicts
            &&& r.1.1 == d.noi_conflicts
            &&& r.1.2 == d.fallbacks
            &&& r.1.3 == d.dropped
        }),
{
    let ghost m = midi@;
    let ghost mv = map@;
    let ghost pitched = routes.pitched@;
    proof {
        assert(m.tracks.len() == midi.tracks@.len());
        assert(mv.tracks.len() == map.tracks@.len());
        lemma_lanes_end(m, mv, pitched, pitched.len());
        assert((2 * mv.tracks.len() + 600) * (span(m) + 16) >= 600 * (span(m) + 16))
            by (nonlinear_arith)
            requires
                mv.tracks.len() >= 0,
                span(m) >= 0,
        ;
    }
    let mut g: Vec<[Cell; CHANNELS]> = blank_grid(total);
    for i in 0..routes.pitched.len()
        invariant
            m == midi@,
            mv == map@,
            pitched == routes.pitched@,
            m.tracks.len() == midi.tracks@.len(),
            mv.tracks.len() == map.tracks@.len(),
            importable(m, mv),
            routes_sound(routes@, m, mv),
            lanes.notes@.len() == pitched.len(),
            forall|i: int|
                0 <= i < pitched.len() ==> (#[trigger] lanes.notes@[i])@ == route_lane(
                    m,
                    mv,
                    pitched,
                    i as nat,
                ).notes,
            forall|i: int|
                0 <= i < pitched.len() ==> lane_end(
                    #[trigger] route_lane(m, mv, pitched, i as nat).notes,
                    span(m),
                ) <= total,
            span(m) <= usize::MAX,
            g@.len() == total,
            song::row_views(g@) == lanes_placed(
                empty_rows(total as nat),
                m,
                mv,
                pitched,
                i as nat,
            ),
    {
        let mi: usize = routes.pitched[i].1;
        assert(routes@.pitched[i as int].1 < mv.tracks.len());
        assert(mv.tracks[mi as int] == map.tracks@[mi as int]@);
        assert(track_ready(mv.tracks[mi as int]));
        proof {
            let ti = pitched[i as int].0 as int;
            assert(routes@.pitched[i as int].0 < m.tracks.len());
            lemma_track_in_span(m, ti);
            lemma_lane_bounds(
                m.tracks[ti],
                row_ticks(m),
                span(m),
                voiced_keys(m, mv, pitched, i as nat),
                mv.tracks[mi as int],
                mv.transpose,
                span(m),
            );
            assert(lanes.notes@[i as int]@ == route_lane(m, mv, pitched, i as nat).notes);
        }
        place_lane(&mut g, &lanes.notes[i], &map.tracks[mi]);
    }
    let none: Vec<MidiNote> = Vec::new();
    assert(none@ =~= Seq::<MidiNote>::empty());
    let notes: &Vec<MidiNote> = match routes.drums {
        Some(i) => {
            assert(m.tracks[i as int] == midi.tracks@[i as int]@);
            &midi.tracks[i].notes
        },
        None => &none,
    };
    assert(notes@ == drum_notes(m, routes@));
    let keys: Vec<Vec<u8>> = split_keys(notes, rt, total);
    let counts: (usize, usize, usize, usize) = place_drums(&mut g, map, &keys);
    (g, counts)
}

proof fn lemma_lanes_end(m: MidiView, map: MapView, pitched: Seq<(usize, usize)>, k: nat)
    ensures
        forall|i: int|
            0 <= i < k ==> lane_end(
                #[trigger] route_lane(m, map, pitched, i as nat).notes,
                span(m),
            ) <= lanes_end(m, map, pitched, k),
    decreases k,
{
    if k > 0 {
        lemma_lanes_end(m, map, pitched, (k - 1) as nat);
    }
}

fn set_instruments(map: &ImportMap, song: &mut Song)
    requires
        forall|i: int| 0 <= i < map@.instruments.len() ==> (#[trigger] map@.instruments[i]).0
            < INSTRUMENTS,
        old(song)@ == song::default_song(),
    ensures
        final(song)@ == (SongView {
            instruments: compose::instruments_of(map@.instruments, map@.instruments.len()),
            ..old(song)@
        }),
{
    let ghost v = map@.instruments;
    let ghost first = song@;
    for k in 0..map.instruments.len()
        invariant
            v == map.instruments@,
            forall|i: int| 0 <= i < v.len() ==> (#[trigger] v[i]).0 < INSTRUMENTS,
            first == old(song)@,
            song@ == (SongView { instruments: compose::instruments_of(v, k as nat), ..first }),
            song.instruments@ == compose::instruments_of(v, k as nat),
    {
        assert(v[k as int].0 < INSTRUMENTS);
        let (idx, inst): (usize, Instrument) = map.instruments[k];
        song.instruments[idx] = inst;
        assert(song@ =~= SongView {
            instruments: compose::instruments_of(v, (k + 1) as nat),
            ..first
        });
    }
}

fn credit(map: &ImportMap) -> (r: String)
    ensures
        r@ == credited(map@),
{
    let mut t: Vec<char> = text::chars_of(map.artist.as_str());
    if text::chars_of(map.arranger.as_str()).len() > 0 {
        text::put_str(&mut t, " (arr. ");
        text::put_str(&mut t, map.arranger.as_str());
        text::put_str(&mut t, ")");
    }
    text::string_of(t.as_slice())
}

fn assemble(map: &ImportMap, bpm: u16, phrases: Vec<Phrase>, order: Vec<usize>) -> (r: Song)
    requires
        forall|i: int| 0 <= i < map@.instruments.len() ==> (#[trigger] map@.instruments[i]).0
            < INSTRUMENTS,
    ensures
        r@ == (SongView {
            bpm,
            phrases: song::grids(phrases@),
            order: order@,
            loop_pos: 0,
            current_phrase: if order@.len() > 0 {
                order@[0]
            } else {
                0
            },
            instruments: compose::instruments_of(map@.instruments, map@.instruments.len()),
            title: map@.title,
            artist: credited(map@),
            samples: map@.samples,
            driver: map@.driver,
            ..song::default_song()
        }),
{
    let ghost want = SongView {
        bpm,
        phrases: song::grids(phrases@),
        order: order@,
        loop_pos: 0,
        current_phrase: if order@.len() > 0 {
            order@[0]
        } else {
            0
        },
        instruments: compose::instruments_of(map@.instruments, map@.instruments.len()),
        title: map@.title,
        artist: credited(map@),
        samples: map@.samples,
        driver: map@.driver,
        ..song::default_song()
    };
    let mut song: Song = Song::default();
    set_instruments(map, &mut song);
    song.bpm = bpm;
    song.current_phrase = if order.len() > 0 {
        order[0]
    } else {
        0
    };
    song.phrases = phrases;
    song.order = order;
    song.title = map.title.clone();
    song.artist = credit(map);
    song.samples = copy_samples(&map.samples);
    song.driver = match &map.driver {
        Some((a, b)) => Some((a.clone(), b.clone())),
        None => None,
    };
    assert(song@ =~= want);
    song
}

/// Arranges a MIDI file as a song, by a map.
pub fn import(midi: &Midi, map: &ImportMap) -> (r: Result<(Song, Report), ImportError>)
    requires
        importable(midi@, map@),
    ensures
        match r {
            Ok((s, p)) => arranged(midi@, map@) == Ok::<(SongView, ReportView), ImportError>(
                (s@, p@),
            ),
            Err(e) => arranged(midi@, map@) == Err::<(SongView, ReportView), ImportError>(e),
        },
{
    let ghost m = midi@;
    let ghost mv = map@;
    let routes: Routes = match route(midi, map) {
        Ok(r) => r,
        Err(e) => {
            return Err(e);
        },
    };
    let ghost rv = routes@;
    let rt: u64 = (midi.ticks_per_quarter / 4) as u64;
    proof {
        assert((2 * mv.tracks.len() + 600) * (span(m) + 16) >= span(m) + 16) by (nonlinear_arith)
            requires
                mv.tracks.len() >= 0,
                span(m) >= 0,
        ;
        assert(m.tracks.len() == midi.tracks@.len());
    }
    let total: usize = measure(midi, rt) as usize;
    let lanes: Lanes = make_lanes(midi, map, &routes.pitched, rt, total);
    let none: Vec<MidiNote> = Vec::new();
    assert(none@ =~= Seq::<MidiNote>::empty());
    let notes: &Vec<MidiNote> = match routes.drums {
        Some(i) => {
            assert(m.tracks[i as int] == midi.tracks@[i as int]@);
            proof {
                lemma_track_in_span(m, i as int);
            }
            &midi.tracks[i].notes
        },
        None => &none,
    };
    proof {
        lemma_last_onset(notes@, rt as nat, notes@.len());
    }
    let onset: usize = find_onset(notes, rt);
    let last: usize = if onset > lanes.end {
        onset
    } else {
        lanes.end
    };
    let rows: usize = (last + 15) / 16 * 16;
    assert(rows == total_rows(m, mv, rv));
    let (grid, (dpcm, noi, falls, drops)): (
        Vec<[Cell; CHANNELS]>,
        (usize, usize, usize, usize),
    ) = fill_grid(midi, map, &routes, &lanes, rt, rows);
    let (phrases, order): (Vec<Phrase>, Vec<usize>) = cut_phrases(&grid);
    let unique: usize = phrases.len();
    assert(song::grids(phrases@).len() == unique);
    if unique > 256 {
        return Err(ImportError::TooManyPhrases(unique));
    }
    let first: u32 = if midi.tempos.len() > 0 {
        midi.tempos[0].1
    } else {
        500_000
    };
    let bpm: u16 = match map.bpm {
        Some(b) => b,
        None => find_bpm(first),
    };
    let ignored_tempos: Option<u32> = if map.bpm.is_none() && has_changes(midi) {
        Some(first)
    } else {
        None
    };
    let song: Song = assemble(map, bpm, phrases, order);
    let report: Report = Report {
        bpm,
        rows,
        phrases_total: rows / 16,
        phrases_unique: unique,
        tracks: routes.lines,
        chords_flattened: lanes.flattened,
        voiced_chords: lanes.voiced,
        notes_clamped: lanes.clamped,
        drum_dpcm_conflicts: dpcm,
        drum_fallbacks: falls,
        drum_dropped: drops,
        noi_conflicts: noi,
        ignored_tempos,
    };
    proof {
        let want = arranged(m, mv)->Ok_0;
        assert(song@ =~= want.0);
        assert(report@ =~= want.1);
    }
    Ok((song, report))
}

fn slots_ready(map: &ImportMap) -> (r: bool)
    ensures
        r == forall|k: u8| #[trigger]
            map@.drums.contains_key(k) ==> match map@.drums[k] {
                DrumTarget::Dpcm(slot) => slot <= 195,
                DrumTarget::Noi { .. } => true,
            },
{
    let mut k: u16 = 0;
    while k < 256
        invariant
            k <= 256,
            forall|j: u8|
                j < k && #[trigger] map@.drums.contains_key(j) ==> match map@.drums[j] {
                    DrumTarget::Dpcm(slot) => slot <= 195,
                    DrumTarget::Noi { .. } => true,
                },
        decreases 256 - k,
    {
        if let Some(DrumTarget::Dpcm(slot)) = target_of(&map.drums, k as u8) {
            if slot > 195 {
                assert(map@.drums.contains_key(k as u8));
                return false;
            }
        }
        k += 1;
    }
    true
}

fn tracks_ready(map: &ImportMap) -> (r: bool)
    ensures
        r == {
            &&& forall|i: int| 0 <= i < map@.tracks.len() ==> track_ready(#[trigger] map@.tracks[i])
            &&& forall|i: int|
                0 <= i < map@.instruments.len() ==> (#[trigger] map@.instruments[i]).0
                    < INSTRUMENTS
        },
{
    let ghost all = map@.tracks;
    let mut i: usize = 0;
    while i < map.tracks.len()
        invariant
            i <= map.tracks@.len(),
            all == vmap::track_map_views(map.tracks@),
            all == map@.tracks,
            forall|k: int| 0 <= k < i ==> track_ready(#[trigger] all[k]),
        decreases map.tracks@.len() - i,
    {
        assert(all[i as int] == map.tracks@[i as int]@);
        let ready: bool = map.tracks[i].drums || match map.tracks[i].ch {
            Some(c) => c < CHANNELS,
            None => false,
        };
        if !ready {
            assert(!track_ready(all[i as int]));
            return false;
        }
        i += 1;
    }
    let mut n: usize = 0;
    while n < map.instruments.len()
        invariant
            n <= map.instruments@.len(),
            forall|k: int| 0 <= k < n ==> (#[trigger] map@.instruments[k]).0 < INSTRUMENTS,
        decreases map.instruments@.len() - n,
    {
        if map.instruments[n].0 >= INSTRUMENTS {
            assert(!(map@.instruments[n as int].0 < INSTRUMENTS));
            return false;
        }
        n += 1;
    }
    true
}

/// Whether a file can be arranged by a map.
pub fn is_importable(midi: &Midi, map: &ImportMap) -> (r: bool)
    ensures
        r == importable(midi@, map@),
{
    if midi.ticks_per_quarter < 4 || !tracks_ready(map) || !slots_ready(map) {
        return false;
    }
    let rt: u64 = (midi.ticks_per_quarter / 4) as u64;
    let far: u128 = measure(midi, rt);
    assert(map@.tracks.len() == map.tracks@.len());
    let n: usize = map.tracks.len();
    let top: u128 = usize::MAX as u128;
    let rows: u128 = far + 16;
    let weight: u128 = 2 * n as u128 + 600;
    proof {
        let a = weight as int;
        let b = rows as int;
        assert(a * b <= top <==> a <= top as int / b) by (nonlinear_arith)
            requires
                b > 0,
                a >= 0,
                top >= 0,
        ;
    }
    weight <= top / rows
}

// ---------------------------------------------------------------- laws

/// Whatever key a track asks for, what is played lies in the channel's range.
pub proof fn law_keys_land_in_range(key: int, triangle: bool)
    ensures
        (if triangle {
            24int
        } else {
            33int
        }) <= placed_key(key, triangle).0 <= 119,
        placed_key(key, triangle).0 as int % 12 == key % 12,
{
    let floor: int = if triangle {
        24
    } else {
        33
    };
    let k1 = if key < floor {
        key + 12 * ((floor - key + 11) / 12)
    } else {
        key
    };
    assert(k1 >= floor);
    assert(k1 % 12 == key % 12);
    if k1 > 119 {
        let k2 = k1 - 12 * ((k1 - 119 + 11) / 12);
        assert(108 <= k2 <= 119);
        assert(k2 % 12 == key % 12);
    }
}

/// A new onset wins: placing a note changes no other note of the grid.
pub proof fn law_onset_wins(g: Seq<Seq<Cell>>, ch: int, r: nat, x: Cell, len: nat, i: int, c: int)
    requires
        0 <= i < g.len(),
        0 <= c < g[i].len(),
        r < g.len(),
        0 <= ch < g[i].len(),
        !(i == r && c == ch),
        g[i][c].note is Some,
    ensures
        note_placed(g, ch, r, x, len)[i][c] == g[i][c],
{
    let end = if r + len < g.len() {
        r + len
    } else {
        g.len()
    };
    if c == ch && r < i < hold_stop(g, ch, r + 1, end) {
        lemma_hold_stop(g, ch, r + 1, end, i);
    }
}

proof fn lemma_hold_stop(g: Seq<Seq<Cell>>, ch: int, r: nat, end: nat, i: int)
    requires
        r <= i < hold_stop(g, ch, r, end),
    ensures
        g[i][ch].note is None,
    decreases end - r,
{
    if r < end && g[r as int][ch].note is None && r < i {
        lemma_hold_stop(g, ch, r + 1, end, i);
    }
}

/// One row gives at most one hit to each drum channel: the one with the
/// highest priority has the sample channel.
pub proof fn law_priority_decides(map: MapView, keys: Seq<u8>, i: int)
    requires
        0 <= i < hits(map, keys, keys.len()).dpcm.len(),
    ensures
        ({
            let h = hits(map, keys, keys.len()).dpcm;
            rank(map.priority_dpcm, h[0].key, 0) <= rank(map.priority_dpcm, h[i].key, 0)
        }),
{
    lemma_hits_ranked(map, keys, keys.len());
}

pub open spec fn hits_ranked(v: Seq<Hit>, list: Seq<u8>) -> bool {
    forall|i: int, j: int|
        0 <= i <= j < v.len() ==> rank(list, (#[trigger] v[i]).key, 0) <= rank(
            list,
            (#[trigger] v[j]).key,
            0,
        )
}

proof fn lemma_hits_ranked(map: MapView, keys: Seq<u8>, n: nat)
    ensures
        hits_ranked(hits(map, keys, n).dpcm, map.priority_dpcm),
    decreases n,
{
    if n > 0 {
        lemma_hits_ranked(map, keys, (n - 1) as nat);
        let h = hits(map, keys, (n - 1) as nat);
        let k = keys[n - 1];
        if !h.seen.contains(k) && map.drums.contains_key(k) {
            if let DrumTarget::Dpcm(slot) = map.drums[k] {
                lemma_with_hit_ranked(
                    h.dpcm,
                    map.priority_dpcm,
                    Hit { key: k, note: slot, instr: 0 },
                );
            }
        }
    }
}

pub proof fn lemma_hit_place_order(v: Seq<Hit>, list: Seq<u8>, k: u8, n: nat)
    requires
        n <= v.len(),
    ensures
        hit_place(v, list, k, n) <= n,
        hit_place(v, list, k, n) > 0 ==> rank(list, v[hit_place(v, list, k, n) - 1].key, 0)
            <= rank(list, k, 0),
        forall|i: int|
            hit_place(v, list, k, n) <= i < n ==> rank(list, (#[trigger] v[i]).key, 0) > rank(
                list,
                k,
                0,
            ),
    decreases n,
{
    if n > 0 && rank(list, v[n - 1].key, 0) > rank(list, k, 0) {
        lemma_hit_place_order(v, list, k, (n - 1) as nat);
    }
}

pub proof fn lemma_with_hit_ranked(v: Seq<Hit>, list: Seq<u8>, h: Hit)
    requires
        hits_ranked(v, list),
    ensures
        hits_ranked(with_hit(v, list, h), list),
{
    lemma_hit_place_order(v, list, h.key, v.len());
    let p = hit_place(v, list, h.key, v.len()) as int;
    let w = with_hit(v, list, h);
    assert forall|i: int, j: int| 0 <= i <= j < w.len() implies rank(
        list,
        (#[trigger] w[i]).key,
        0,
    ) <= rank(list, (#[trigger] w[j]).key, 0) by {
        let a = if i < p {
            i
        } else {
            i - 1
        };
        let b = if j < p {
            j
        } else {
            j - 1
        };
        if i != p && j != p {
            assert(w[i] == v[a]);
            assert(w[j] == v[b]);
        } else if i == p && j > p {
            assert(w[j] == v[b]);
        } else if j == p && i < p {
            assert(w[i] == v[i]);
            assert(rank(list, v[i].key, 0) <= rank(list, v[p - 1].key, 0));
        }
    }
}

// ---------------------------------------------------------------- summary

/// Beats per minute, in double precision, to one decimal.
pub open spec fn bpm_text(us: u32) -> Seq<char> {
    if us == 0 {
        "inf"@
    } else {
        let (n, d) = binary::nearest(60_000_000, us as nat, binary::DOUBLE as nat);
        let t = text::rounded((10 * n) as int, d as int);
        text::dec((t / 10) as nat) + "."@ + text::dec((t % 10) as nat)
    }
}

/// Texts in order, `, ` between them.
pub open spec fn listed(ls: Seq<Seq<char>>, k: nat) -> Seq<char>
    decreases k,
{
    if k == 0 {
        Seq::empty()
    } else if k == 1 {
        ls[0]
    } else {
        listed(ls, (k - 1) as nat) + ", "@ + ls[k - 1]
    }
}

pub open spec fn summary_text(r: ReportView) -> Seq<char> {
    text::dec(r.bpm as nat) + " BPM, "@ + text::dec(r.rows) + " rows → "@ + text::dec(
        r.phrases_total,
    ) + " phrases ("@ + text::dec(r.phrases_unique) + " unique); tracks: "@ + listed(
        r.tracks,
        r.tracks.len(),
    ) + "\nchords flattened "@ + text::dec(r.chords_flattened) + " (voiced across PU1/PU2 "@
        + text::dec(r.voiced_chords) + "), notes clamped "@ + text::dec(r.notes_clamped)
        + "\ndrums: DPCM conflicts "@ + text::dec(r.drum_dpcm_conflicts) + " (fallback "@
        + text::dec(r.drum_fallbacks) + ", dropped "@ + text::dec(r.drum_dropped)
        + "), noise conflicts "@ + text::dec(r.noi_conflicts) + (match r.ignored_tempos {
        None => Seq::empty(),
        Some(us) => "\nwarning: tempo changes in the MIDI are ignored; using the first ("@
            + bpm_text(us) + " BPM)"@,
    })
}

fn put_bpm(out: &mut Vec<char>, us: u32)
    ensures
        final(out)@ == old(out)@ + bpm_text(us),
{
    if us == 0 {
        text::put_str(out, "inf");
        return;
    }
    let ghost before = out@;
    let (n, d): (u128, u128) = binary::find_nearest(60_000_000, us as u128, binary::DOUBLE);
    let t: u128 = text::round(10 * n, d);
    let whole: Vec<char> = text::numeral_of(t / 10, 10);
    text::put(out, whole.as_slice());
    text::put_str(out, ".");
    text::put_dec(out, (t % 10) as u64);
    assert(out@ =~= before + bpm_text(us));
}

fn put_list(out: &mut Vec<char>, ls: &Vec<String>)
    ensures
        final(out)@ == old(out)@ + listed(text::texts(ls@), ls@.len()),
{
    let ghost before = out@;
    let ghost all = text::texts(ls@);
    assert(out@ =~= before + listed(all, 0));
    for i in 0..ls.len()
        invariant
            all == text::texts(ls@),
            out@ == before + listed(all, i as nat),
    {
        assert(all[i as int] == ls@[i as int]@);
        if i > 0 {
            text::put_str(out, ", ");
        }
        text::put_str(out, ls[i].as_str());
        assert(out@ =~= before + listed(all, (i + 1) as nat));
    }
}

impl Report {
    /// The report in words.
    pub fn summary(&self) -> (r: String)
        ensures
            r@ == summary_text(self@),
    {
        let mut t: Vec<char> = Vec::new();
        text::put_dec(&mut t, self.bpm as u64);
        text::put_str(&mut t, " BPM, ");
        text::put_dec(&mut t, self.rows as u64);
        text::put_str(&mut t, " rows → ");
        text::put_dec(&mut t, self.phrases_total as u64);
        text::put_str(&mut t, " phrases (");
        text::put_dec(&mut t, self.phrases_unique as u64);
        text::put_str(&mut t, " unique); tracks: ");
        assert(self@.tracks.len() == self.tracks@.len());
        put_list(&mut t, &self.tracks);
        text::put_str(&mut t, "\nchords flattened ");
        text::put_dec(&mut t, self.chords_flattened as u64);
        text::put_str(&mut t, " (voiced across PU1/PU2 ");
        text::put_dec(&mut t, self.voiced_chords as u64);
        text::put_str(&mut t, "), notes clamped ");
        text::put_dec(&mut t, self.notes_clamped as u64);
        text::put_str(&mut t, "\ndrums: DPCM conflicts ");
        text::put_dec(&mut t, self.drum_dpcm_conflicts as u64);
        text::put_str(&mut t, " (fallback ");
        text::put_dec(&mut t, self.drum_fallbacks as u64);
        text::put_str(&mut t, ", dropped ");
        text::put_dec(&mut t, self.drum_dropped as u64);
        text::put_str(&mut t, "), noise conflicts ");
        text::put_dec(&mut t, self.noi_conflicts as u64);
        let ghost said = t@;
        assert(Seq::<char>::empty() + text::dec(self.bpm as nat) =~= text::dec(self.bpm as nat));
        assert(said + Seq::<char>::empty() =~= said);
        if let Some(us) = self.ignored_tempos {
            text::put_str(
                &mut t,
                "\nwarning: tempo changes in the MIDI are ignored; using the first (",
            );
            put_bpm(&mut t, us);
            text::put_str(&mut t, " BPM)");
            assert(t@ =~= said
                + ("\nwarning: tempo changes in the MIDI are ignored; using the first ("@
                + bpm_text(us) + " BPM)"@));
        }
        text::string_of(t.as_slice())
    }
}

} // verus!
