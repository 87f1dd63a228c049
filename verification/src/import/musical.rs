//! What an imported file keeps of its music: when its notes start and how long
//! they last, which note of a chord is played, and what its drums strike.

use vstd::prelude::*;

use crate::import::arrange;
use crate::import::arrange::{Hit, ImportError, Routing, RowNote};
use crate::import::smf::{MidiNote, MidiView, TrackView};
use crate::import::vmap::{DrumTarget, MapView, TrackMapView};
use crate::song::{Cell, CHANNELS};
use crate::text;

verus! {

// ---------------------------------------------------------------- time

/// Whether no row is nearer to a time. Half-way between two it is the later.
#[verifier::opaque]
pub open spec fn is_nearest_row(r: int, time: int, row: int) -> bool {
    2 * (r * row - time) <= row && 2 * (time - r * row) < row
}

proof fn lemma_row_of(tick: u64, rt: nat)
    requires
        rt > 0,
    ensures
        is_nearest_row(arrange::row_of(tick, rt) as int, tick as int, rt as int),
{
    reveal(is_nearest_row);
    let a = 2 * tick + rt;
    let b = (2 * rt) as int;
    let r = a / b;
    vstd::arithmetic::div_mod::lemma_fundamental_div_mod(a, b);
    vstd::arithmetic::div_mod::lemma_mod_bound(a, b);
    assert(b * r == 2 * (r * rt)) by (nonlinear_arith)
        requires
            b == 2 * rt,
    ;
    assert(r >= 0) by (nonlinear_arith)
        requires
            r == a / b,
            a >= 0,
            b > 0,
    ;
}

proof fn lemma_one_row(a: int, b: int, time: int, row: int)
    requires
        row > 0,
        is_nearest_row(a, time, row),
        is_nearest_row(b, time, row),
    ensures
        a == b,
{
    reveal(is_nearest_row);
    assert(a == b) by (nonlinear_arith)
        requires
            row > 0,
            2 * (a * row - time) <= row,
            2 * (time - a * row) < row,
            2 * (b * row - time) <= row,
            2 * (time - b * row) < row,
    ;
}

/// Whether a note of a file is struck on a row and lasts so many rows.
pub open spec fn is_on_row(x: MidiNote, r: int, rows: int, rt: int) -> bool {
    &&& is_nearest_row(r, x.tick as int, rt)
    &&& rows >= 1
    &&& is_nearest_row(rows, x.len as int, rt) || (rows == 1 && is_nearest_row(0, x.len as int, rt))
}

/// Whether a chord's note is one of the first `k` of a track.
pub open spec fn is_note_of(notes: Seq<MidiNote>, k: nat, x: (u8, usize), r: int, rt: int) -> bool {
    exists|i: int|
        0 <= i < k && (#[trigger] notes[i]).key == x.0 && is_on_row(notes[i], r, x.1 as int, rt)
}

/// Whether a chord has a key.
pub open spec fn has_key(c: Seq<(u8, usize)>, key: u8) -> bool {
    exists|j: int| 0 <= j < c.len() && (#[trigger] c[j]).0 == key
}

proof fn lemma_row_notes(notes: Seq<MidiNote>, rt: nat, r: nat, k: nat)
    requires
        rt > 0,
        k <= notes.len(),
        arrange::last_end(notes, rt, notes.len()) <= usize::MAX,
    ensures
        ({
            let c = arrange::row_notes(notes, rt, r, k);
            &&& forall|j: int|
                0 <= j < c.len() ==> is_note_of(notes, k, #[trigger] c[j], r as int, rt as int)
            &&& forall|i: int|
                0 <= i < k && is_nearest_row(r as int, (#[trigger] notes[i]).tick as int, rt as int)
                    ==> has_key(c, notes[i].key)
        }),
    decreases k,
{
    if k > 0 {
        lemma_row_notes(notes, rt, r, (k - 1) as nat);
        let b = arrange::row_notes(notes, rt, r, (k - 1) as nat);
        let c = arrange::row_notes(notes, rt, r, k);
        let x = notes[k - 1];
        arrange::lemma_last_end(notes, rt, notes.len(), k - 1);
        lemma_row_of(x.tick, rt);
        lemma_row_of(x.len, rt);
        let at = arrange::row_of(x.tick, rt) as int;
        if is_nearest_row(r as int, x.tick as int, rt as int) {
            lemma_one_row(r as int, at, x.tick as int, rt as int);
        }
        if at == r {
            assert(c == b.push((x.key, arrange::rows_of(x.len, rt) as usize)));
            assert(c[c.len() - 1].0 == x.key);
            assert(is_on_row(notes[k - 1], r as int, c.last().1 as int, rt as int));
        }
        assert forall|j: int| 0 <= j < c.len() implies is_note_of(
            notes,
            k,
            #[trigger] c[j],
            r as int,
            rt as int,
        ) by {
            if j < b.len() {
                assert(c[j] == b[j]);
                assert(is_note_of(notes, (k - 1) as nat, b[j], r as int, rt as int));
            } else {
                assert(notes[k - 1].key == c[j].0);
            }
        }
        assert forall|i: int|
            0 <= i < k && is_nearest_row(
                r as int,
                (#[trigger] notes[i]).tick as int,
                rt as int,
            ) implies has_key(c, notes[i].key) by {
            if i < k - 1 {
                assert(has_key(b, notes[i].key));
                let j = choose|j: int| 0 <= j < b.len() && (#[trigger] b[j]).0 == notes[i].key;
                assert(c[j].0 == notes[i].key);
            }
        }
    }
}

/// A track's notes are struck on the rows nearest to them, sixteen to a whole
/// note, and last as many rows as are nearest to their length, but one at
/// least. None is left out and none comes from elsewhere.
pub proof fn law_notes_start_on_the_nearest_row(
    m: MidiView,
    map: MapView,
    p: (usize, usize),
    r: int,
)
    requires
        arrange::importable(m, map),
        p.0 < m.tracks.len(),
        0 <= r < arrange::span(m),
    ensures
        ({
            let notes = m.tracks[p.0 as int].notes;
            let row = m.ticks_per_quarter as int / 4;
            let c = arrange::route_rows(m, p)[r];
            &&& forall|j: int|
                0 <= j < c.len() ==> is_note_of(notes, notes.len(), #[trigger] c[j], r, row)
            &&& forall|i: int|
                0 <= i < notes.len() && is_nearest_row(r, (#[trigger] notes[i]).tick as int, row)
                    ==> has_key(c, notes[i].key)
        }),
{
    let notes = m.tracks[p.0 as int].notes;
    let rt = arrange::row_ticks(m);
    arrange::lemma_span(m.tracks, rt, m.tracks.len(), p.0 as int);
    let n = map.tracks.len();
    let w = arrange::span(m);
    assert(w <= (2 * n + 600) * (w + 16)) by (nonlinear_arith);
    lemma_row_notes(notes, rt, r as nat, notes.len());
}

// ---------------------------------------------------------------- chords

proof fn lemma_lowest(c: Seq<(u8, usize)>, k: nat)
    requires
        0 < k <= c.len(),
    ensures
        arrange::lowest(c, k) < k,
        forall|q: int| 0 <= q < k ==> c[arrange::lowest(c, k) as int].0 <= (#[trigger] c[q]).0,
    decreases k,
{
    if k > 1 {
        lemma_lowest(c, (k - 1) as nat);
    }
}

proof fn lemma_highest(c: Seq<(u8, usize)>, k: nat)
    requires
        0 < k <= c.len(),
    ensures
        arrange::highest(c, k) < k,
        forall|q: int| 0 <= q < k ==> c[arrange::highest(c, k) as int].0 >= (#[trigger] c[q]).0,
    decreases k,
{
    if k > 1 {
        lemma_highest(c, (k - 1) as nat);
    }
}

proof fn lemma_lane(
    rows: Seq<Seq<(u8, usize)>>,
    voiced: Seq<Option<u8>>,
    t: TrackMapView,
    transpose: i32,
    k: nat,
    r: int,
)
    requires
        0 <= r < k,
    ensures
        arrange::lane(rows, voiced, t, transpose, k).notes.len() == k,
        arrange::lane(rows, voiced, t, transpose, k).notes[r] == arrange::lane_note(
            rows[r],
            voiced[r],
            t,
            transpose,
        ).0,
    decreases k,
{
    reveal_with_fuel(arrange::lane, 2);
    if r < k - 1 {
        lemma_lane(rows, voiced, t, transpose, (k - 1) as nat, r);
    } else if k > 1 {
        lemma_lane(rows, voiced, t, transpose, (k - 1) as nat, 0);
    }
}

proof fn lemma_on_channel(map: MapView, pitched: Seq<(usize, usize)>, ch: usize, i: nat)
    requires
        i <= pitched.len(),
    ensures
        match arrange::on_channel(map, pitched, ch, i) {
            Some(j) => i <= j < pitched.len() && plays(map, pitched, j as int, ch) && forall|q: int|
                i <= q < j ==> !#[trigger] plays(map, pitched, q, ch),
            None => forall|q: int| i <= q < pitched.len() ==> !#[trigger] plays(map, pitched, q, ch),
        },
    decreases pitched.len() - i,
{
    if i < pitched.len() && !plays(map, pitched, i as int, ch) {
        lemma_on_channel(map, pitched, ch, i + 1);
    }
}

/// Whether a pitched track plays a channel.
pub open spec fn plays(map: MapView, pitched: Seq<(usize, usize)>, i: int, ch: usize) -> bool {
    map.tracks[pitched[i].1 as int].ch == Some(ch)
}

/// A key as a track asks for it.
pub open spec fn asked(key: u8, t: TrackMapView, transpose: i32) -> int {
    key + 12 * t.octave + transpose
}

/// Whether a lane's note is a key as its track asks for it, moved by octaves
/// where the channel cannot reach it: the triangle goes down to 24 and the
/// others to 33, and all go up to 119.
pub open spec fn is_asked(n: u8, key: u8, t: TrackMapView, transpose: i32) -> bool {
    let want = asked(key, t, transpose);
    let floor: int = if t.ch == Some(2usize) {
        24
    } else {
        33
    };
    &&& n as int % 12 == want % 12
    &&& floor <= n <= 119
    &&& floor <= want <= 119 ==> n == want
}

/// Whether row `r` of a track is played as it is, and not split between the
/// pulses: the track plays another channel, one of the pulses has no track, or
/// the row has one note.
pub open spec fn is_alone(
    m: MidiView,
    map: MapView,
    pitched: Seq<(usize, usize)>,
    i: int,
    r: int,
) -> bool {
    ||| !plays(map, pitched, i, 0) && !plays(map, pitched, i, 1)
    ||| forall|j: int| 0 <= j < pitched.len() ==> !#[trigger] plays(map, pitched, j, 0)
    ||| forall|j: int| 0 <= j < pitched.len() ==> !#[trigger] plays(map, pitched, j, 1)
    ||| arrange::route_rows(m, pitched[i])[r].len() == 1
}

/// A chord is flattened to one note: its lowest where the track says `root`,
/// else its highest. The track's octave and the song's transposition apply,
/// and the note lasts as long as it did.
pub proof fn law_chords_are_flattened(
    m: MidiView,
    map: MapView,
    pitched: Seq<(usize, usize)>,
    i: int,
    r: int,
)
    requires
        0 <= i < pitched.len(),
        0 <= r < arrange::span(m),
        is_alone(m, map, pitched, i, r),
    ensures
        ({
            let c = arrange::route_rows(m, pitched[i])[r];
            let t = map.tracks[pitched[i].1 as int];
            let n = arrange::route_lane(m, map, pitched, i as nat).notes[r];
            &&& n is None <==> c.len() == 0
            &&& n is Some ==> exists|j: int|
                0 <= j < c.len() && is_asked(n->0.key, (#[trigger] c[j]).0, t, map.transpose)
                    && n->0.len_rows == c[j].1 && (t.flatten == "root"@ ==> forall|q: int|
                    0 <= q < c.len() ==> c[j].0 <= (#[trigger] c[q]).0) && (t.flatten != "root"@
                    ==> forall|q: int| 0 <= q < c.len() ==> c[j].0 >= (#[trigger] c[q]).0)
        }),
{
    let c = arrange::route_rows(m, pitched[i])[r];
    let t = map.tracks[pitched[i].1 as int];
    let voiced = arrange::voiced_keys(m, map, pitched, i as nat);
    lemma_on_channel(map, pitched, 0, 0);
    lemma_on_channel(map, pitched, 1, 0);
    assert(voiced[r] is None);
    lemma_lane(
        arrange::route_rows(m, pitched[i]),
        voiced,
        t,
        map.transpose,
        arrange::span(m),
        r,
    );
    if c.len() > 0 {
        lemma_lowest(c, c.len());
        lemma_highest(c, c.len());
        let j = if t.flatten == "root"@ {
            arrange::lowest(c, c.len()) as int
        } else {
            arrange::highest(c, c.len()) as int
        };
        arrange::law_keys_land_in_range(
            c[j].0 + t.octave * 12 + map.transpose,
            t.ch == Some(2usize),
        );
        assert(is_asked(
            arrange::route_lane(m, map, pitched, i as nat).notes[r]->0.key,
            c[j].0,
            t,
            map.transpose,
        ));
    }
}

proof fn lemma_fifth(c: Seq<(u8, usize)>, root: u8, n: nat)
    requires
        n <= c.len(),
    ensures
        arrange::fifth_in(c, root, n) matches Some(k) ==> (k - root) % 12 == 7 && exists|j: int|
            0 <= j < n && (#[trigger] c[j]).0 == k,
        (exists|j: int| 0 <= j < n && ((#[trigger] c[j]).0 - root) % 12 == 7) ==> arrange::fifth_in(
            c,
            root,
            n,
        ) is Some,
    decreases n,
{
    if n > 0 {
        lemma_fifth(c, root, (n - 1) as nat);
        let k = c[n - 1].0;
        assert(((k + 12 - root % 12) % 12 == 7) == ((k - root) % 12 == 7));
        if let Some(k) = arrange::fifth_in(c, root, n) {
            if arrange::fifth_in(c, root, (n - 1) as nat) != Some(k) {
                assert(c[n - 1].0 == k);
            } else {
                let j = choose|j: int| 0 <= j < n - 1 && (#[trigger] c[j]).0 == k;
                assert(c[j].0 == k);
            }
        }
    }
}

/// A chord that both pulses play is split between them: the second pulse takes
/// its lowest note and the first a fifth above that.
pub proof fn law_pulses_share_their_chord(
    m: MidiView,
    map: MapView,
    pitched: Seq<(usize, usize)>,
    a: int,
    b: int,
    r: int,
)
    requires
        0 <= a < pitched.len(),
        0 <= b < pitched.len(),
        0 <= r < arrange::span(m),
        plays(map, pitched, a, 0),
        plays(map, pitched, b, 1),
        forall|j: int| 0 <= j < a ==> !#[trigger] plays(map, pitched, j, 0),
        forall|j: int| 0 <= j < b ==> !#[trigger] plays(map, pitched, j, 1),
        arrange::route_rows(m, pitched[a])[r].len() >= 2,
        arrange::route_rows(m, pitched[b])[r].len() >= 2,
        arrange::same_classes(
            arrange::route_rows(m, pitched[a])[r],
            arrange::route_rows(m, pitched[b])[r],
        ),
    ensures
        ({
            let x = arrange::route_rows(m, pitched[a])[r];
            let y = arrange::route_rows(m, pitched[b])[r];
            let low = y[arrange::lowest(y, y.len()) as int].0;
            let first = arrange::route_lane(m, map, pitched, a as nat).notes[r];
            let second = arrange::route_lane(m, map, pitched, b as nat).notes[r];
            &&& forall|q: int| 0 <= q < y.len() ==> low <= (#[trigger] y[q]).0
            &&& (exists|j: int| 0 <= j < x.len() && ((#[trigger] x[j]).0 - low) % 12 == 7) ==> {
                &&& second is Some && is_asked(
                    second->0.key,
                    low,
                    map.tracks[pitched[b].1 as int],
                    map.transpose,
                )
                &&& first is Some && exists|j: int|
                    0 <= j < x.len() && ((#[trigger] x[j]).0 - low) % 12 == 7 && is_asked(
                        first->0.key,
                        x[j].0,
                        map.tracks[pitched[a].1 as int],
                        map.transpose,
                    )
            }
        }),
{
    let x = arrange::route_rows(m, pitched[a])[r];
    let y = arrange::route_rows(m, pitched[b])[r];
    let t = map.tracks[pitched[a].1 as int];
    let u = map.tracks[pitched[b].1 as int];
    lemma_on_channel(map, pitched, 0, 0);
    lemma_on_channel(map, pitched, 1, 0);
    assert(arrange::on_channel(map, pitched, 0, 0) == Some(a as nat));
    assert(arrange::on_channel(map, pitched, 1, 0) == Some(b as nat));
    lemma_lowest(y, y.len());
    let low = y[arrange::lowest(y, y.len()) as int].0;
    lemma_fifth(x, low, x.len());
    lemma_lane(
        arrange::route_rows(m, pitched[a]),
        arrange::voiced_keys(m, map, pitched, a as nat),
        t,
        map.transpose,
        arrange::span(m),
        r,
    );
    lemma_lane(
        arrange::route_rows(m, pitched[b]),
        arrange::voiced_keys(m, map, pitched, b as nat),
        u,
        map.transpose,
        arrange::span(m),
        r,
    );
    if let Some(k) = arrange::fifth_in(x, low, x.len()) {
        let j = choose|j: int| 0 <= j < x.len() && (#[trigger] x[j]).0 == k;
        assert((x[j].0 - low) % 12 == 7);
        arrange::law_keys_land_in_range(k + t.octave * 12 + map.transpose, t.ch == Some(2usize));
        arrange::law_keys_land_in_range(low + u.octave * 12 + map.transpose, u.ch == Some(2usize));
    }
}

// ---------------------------------------------------------------- the grid

/// A grid of whole rows.
pub open spec fn is_grid(g: Seq<Seq<Cell>>, rows: nat) -> bool {
    &&& g.len() == rows
    &&& forall|q: int| 0 <= q < rows ==> (#[trigger] g[q]).len() == CHANNELS
}

proof fn lemma_lane_placed(
    g: Seq<Seq<Cell>>,
    l: Seq<Option<RowNote>>,
    t: TrackMapView,
    k: nat,
    rows: nat,
)
    requires
        is_grid(g, rows),
        t.ch is Some,
        t.ch->0 < CHANNELS,
    ensures
        is_grid(arrange::lane_placed(g, l, t, k), rows),
        forall|q: int, c: int|
            0 <= q < rows && 0 <= c < CHANNELS && c != t.ch->0 ==> (
            #[trigger] arrange::lane_placed(g, l, t, k)[q][c]) == g[q][c],
    decreases k,
{
    if k > 0 {
        lemma_lane_placed(g, l, t, (k - 1) as nat, rows);
    }
}

/// Rows before the last that was placed stay as they are.
proof fn lemma_lane_kept(
    g: Seq<Seq<Cell>>,
    l: Seq<Option<RowNote>>,
    t: TrackMapView,
    j: nat,
    k: nat,
    rows: nat,
    q: int,
)
    requires
        is_grid(g, rows),
        t.ch is Some,
        t.ch->0 < CHANNELS,
        j <= k,
        0 <= q < j,
        q < rows,
    ensures
        arrange::lane_placed(g, l, t, k)[q] == arrange::lane_placed(g, l, t, j)[q],
    decreases k - j,
{
    if j < k {
        lemma_lane_kept(g, l, t, j, (k - 1) as nat, rows, q);
        lemma_lane_placed(g, l, t, (k - 1) as nat, rows);
    }
}

proof fn lemma_lane_cell(
    g: Seq<Seq<Cell>>,
    l: Seq<Option<RowNote>>,
    t: TrackMapView,
    k: nat,
    rows: nat,
    r: int,
)
    requires
        is_grid(g, rows),
        t.ch is Some,
        t.ch->0 < CHANNELS,
        0 <= r < k,
        r < rows,
        l[r] is Some,
    ensures
        arrange::lane_placed(g, l, t, k)[r][t.ch->0 as int] == arrange::lane_cell(l[r]->0, t),
{
    lemma_lane_placed(g, l, t, r as nat, rows);
    lemma_lane_kept(g, l, t, (r + 1) as nat, k, rows, r);
}

proof fn lemma_hold_reaches(g: Seq<Seq<Cell>>, ch: int, r: nat, end: nat, q: int)
    requires
        r <= q < end,
        forall|i: int| r <= i <= q ==> (#[trigger] g[i])[ch].note is None,
    ensures
        arrange::hold_stop(g, ch, r, end) > q,
    decreases q - r,
{
    assert(g[r as int][ch].note is None);
    if r < q {
        lemma_hold_reaches(g, ch, r + 1, end, q);
    } else {
        lemma_hold_stop_bound(g, ch, r + 1, end);
    }
}

proof fn lemma_hold_stop_bound(g: Seq<Seq<Cell>>, ch: int, r: nat, end: nat)
    ensures
        arrange::hold_stop(g, ch, r, end) >= r,
    decreases end - r,
{
    if r < end && g[r as int][ch].note is None {
        lemma_hold_stop_bound(g, ch, r + 1, end);
    }
}

/// Rows that no note has reached have none.
proof fn lemma_lane_ahead(
    g: Seq<Seq<Cell>>,
    l: Seq<Option<RowNote>>,
    t: TrackMapView,
    k: nat,
    rows: nat,
    q: int,
)
    requires
        is_grid(g, rows),
        t.ch is Some,
        t.ch->0 < CHANNELS,
        k <= q < rows,
        g[q][t.ch->0 as int].note is None,
    ensures
        arrange::lane_placed(g, l, t, k)[q][t.ch->0 as int].note is None,
    decreases k,
{
    if k > 0 {
        lemma_lane_ahead(g, l, t, (k - 1) as nat, rows, q);
        lemma_lane_placed(g, l, t, (k - 1) as nat, rows);
    }
}

proof fn lemma_lane_hold(
    g: Seq<Seq<Cell>>,
    l: Seq<Option<RowNote>>,
    t: TrackMapView,
    k: nat,
    rows: nat,
    r: int,
    q: int,
)
    requires
        is_grid(g, rows),
        t.ch is Some,
        t.ch->0 < CHANNELS,
        0 <= r < q < k,
        q < rows,
        l[r] is Some,
        q < r + l[r]->0.len_rows,
        forall|i: int| r < i <= q ==> (#[trigger] l[i]) is None,
        forall|i: int| 0 <= i < rows ==> (#[trigger] g[i])[t.ch->0 as int].note is None,
    ensures
        ({
            let x = arrange::lane_placed(g, l, t, k)[q][t.ch->0 as int];
            x.hold && x.note is None
        }),
{
    let ch = t.ch->0 as int;
    let h = arrange::lane_placed(g, l, t, r as nat);
    lemma_lane_placed(g, l, t, r as nat, rows);
    assert forall|i: int| r + 1 <= i <= q implies (#[trigger] h[i])[ch].note is None by {
        lemma_lane_ahead(g, l, t, r as nat, rows, i);
    }
    let end: nat = if r + l[r]->0.len_rows < rows {
        (r + l[r]->0.len_rows) as nat
    } else {
        rows
    };
    lemma_hold_reaches(h, ch, (r + 1) as nat, end, q);
    let one = arrange::lane_placed(g, l, t, (r + 1) as nat);
    assert(one[q][ch].hold && one[q][ch].note is None);
    lemma_lane_quiet(g, l, t, (r + 1) as nat, (q + 1) as nat);
    lemma_lane_kept(g, l, t, (q + 1) as nat, k, rows, q);
}

/// Rows of a lane without notes change nothing.
proof fn lemma_lane_quiet(
    g: Seq<Seq<Cell>>,
    l: Seq<Option<RowNote>>,
    t: TrackMapView,
    j: nat,
    k: nat,
)
    requires
        j <= k,
        forall|i: int| j <= i < k ==> (#[trigger] l[i]) is None,
    ensures
        arrange::lane_placed(g, l, t, k) == arrange::lane_placed(g, l, t, j),
    decreases k - j,
{
    if j < k {
        assert(l[k - 1] is None);
        lemma_lane_quiet(g, l, t, j, (k - 1) as nat);
    }
}

/// Whether every pitched track has a channel.
pub open spec fn are_routed(map: MapView, pitched: Seq<(usize, usize)>) -> bool {
    forall|i: int|
        0 <= i < pitched.len() ==> (#[trigger] map.tracks[pitched[i].1 as int]).ch is Some
            && map.tracks[pitched[i].1 as int].ch->0 < CHANNELS
}

proof fn lemma_lanes_placed(
    m: MidiView,
    map: MapView,
    pitched: Seq<(usize, usize)>,
    rows: nat,
    k: nat,
    ch: int,
)
    requires
        are_routed(map, pitched),
        k <= pitched.len(),
        0 <= ch < CHANNELS,
        forall|i: int| 0 <= i < k ==> !#[trigger] plays(map, pitched, i, ch as usize),
    ensures
        ({
            let g = arrange::lanes_placed(arrange::empty_rows(rows), m, map, pitched, k);
            &&& is_grid(g, rows)
            &&& forall|q: int| 0 <= q < rows ==> (#[trigger] g[q])[ch] == crate::song::empty_cell()
        }),
    decreases k,
{
    if k > 0 {
        lemma_lanes_placed(m, map, pitched, rows, (k - 1) as nat, ch);
        let g = arrange::lanes_placed(arrange::empty_rows(rows), m, map, pitched, (k - 1) as nat);
        let t = map.tracks[pitched[k - 1].1 as int];
        let l = arrange::route_lane(m, map, pitched, (k - 1) as nat).notes;
        assert(!plays(map, pitched, k - 1, ch as usize));
        lemma_lane_placed(g, l, t, arrange::span(m), rows);
        assert forall|q: int| 0 <= q < rows implies (#[trigger] arrange::lanes_placed(
            arrange::empty_rows(rows),
            m,
            map,
            pitched,
            k,
        )[q])[ch] == crate::song::empty_cell() by {
            assert(arrange::lane_placed(g, l, t, arrange::span(m))[q][ch] == g[q][ch]);
        }
    }
}

proof fn lemma_lanes_after(
    m: MidiView,
    map: MapView,
    pitched: Seq<(usize, usize)>,
    rows: nat,
    j: nat,
    k: nat,
    ch: int,
    q: int,
)
    requires
        are_routed(map, pitched),
        j <= k <= pitched.len(),
        0 <= ch < CHANNELS,
        0 <= q < rows,
        is_grid(arrange::lanes_placed(arrange::empty_rows(rows), m, map, pitched, j), rows),
        forall|i: int| j <= i < k ==> !#[trigger] plays(map, pitched, i, ch as usize),
    ensures
        is_grid(arrange::lanes_placed(arrange::empty_rows(rows), m, map, pitched, k), rows),
        arrange::lanes_placed(arrange::empty_rows(rows), m, map, pitched, k)[q][ch]
            == arrange::lanes_placed(arrange::empty_rows(rows), m, map, pitched, j)[q][ch],
    decreases k - j,
{
    if j < k {
        lemma_lanes_after(m, map, pitched, rows, j, (k - 1) as nat, ch, q);
        let g = arrange::lanes_placed(arrange::empty_rows(rows), m, map, pitched, (k - 1) as nat);
        let t = map.tracks[pitched[k - 1].1 as int];
        let l = arrange::route_lane(m, map, pitched, (k - 1) as nat).notes;
        assert(!plays(map, pitched, k - 1, ch as usize));
        lemma_lane_placed(g, l, t, arrange::span(m), rows);
        assert(arrange::lane_placed(g, l, t, arrange::span(m))[q][ch] == g[q][ch]);
    }
}

proof fn lemma_drums_placed(
    g: Seq<Seq<Cell>>,
    map: MapView,
    keys: Seq<Seq<u8>>,
    rows: nat,
    k: nat,
)
    requires
        is_grid(g, rows),
        k <= rows,
    ensures
        is_grid(arrange::drums_placed(g, map, keys, k).grid, rows),
        forall|q: int, c: int|
            0 <= q < rows && 0 <= c < 3 ==> (#[trigger] arrange::drums_placed(
                g,
                map,
                keys,
                k,
            ).grid[q][c]) == g[q][c],
        forall|q: int|
            k <= q < rows ==> (#[trigger] arrange::drums_placed(g, map, keys, k).grid[q]) == g[q],
        forall|q: int|
            0 <= q < k ==> (#[trigger] arrange::drums_placed(g, map, keys, k).grid[q])
                == arrange::drummed(g[q], arrange::drum_row(map, keys[q])),
    decreases k,
{
    if k > 0 {
        lemma_drums_placed(g, map, keys, rows, (k - 1) as nat);
    }
}

/// What a lane plays is what the song's rows hold: its notes on the track's
/// channel and instrument, long ones with the track's vibrato, and holds
/// behind a note for as long as it lasts, up to the next.
pub proof fn law_lanes_are_written(m: MidiView, map: MapView, r: Routing, i: int, q: int, s: int)
    requires
        are_routed(map, r.pitched),
        0 <= i < r.pitched.len(),
        map.tracks[r.pitched[i].1 as int].ch->0 < 3,
        forall|j: int|
            0 <= j < r.pitched.len() && j != i ==> !#[trigger] plays(
                map,
                r.pitched,
                j,
                map.tracks[r.pitched[i].1 as int].ch->0,
            ),
        0 <= q <= s < arrange::span(m),
        s < arrange::total_rows(m, map, r),
        arrange::route_lane(m, map, r.pitched, i as nat).notes[q] is Some,
        forall|j: int|
            q < j <= s ==> (#[trigger] arrange::route_lane(
                m,
                map,
                r.pitched,
                i as nat,
            ).notes[j]) is None,
    ensures
        ({
            let t = map.tracks[r.pitched[i].1 as int];
            let n = arrange::route_lane(m, map, r.pitched, i as nat).notes[q]->0;
            let g = arrange::filled(m, map, r).grid;
            let x = g[q][t.ch->0 as int];
            let y = g[s][t.ch->0 as int];
            &&& x.note == Some(n.key) && x.instr == t.instr && !x.hold
            &&& x.fx is Some <==> t.vibrato is Some && n.len_rows >= t.vibrato_min_rows
            &&& x.fx is Some ==> x.fx == t.vibrato
            &&& q < s < q + n.len_rows ==> y.hold && y.note is None
        }),
{
    let rows = arrange::total_rows(m, map, r);
    let p = r.pitched;
    let t = map.tracks[p[i].1 as int];
    let ch = t.ch->0 as int;
    let l = arrange::route_lane(m, map, p, i as nat).notes;
    assert forall|j: int| 0 <= j < i implies !#[trigger] plays(map, p, j, ch as usize) by {}
    lemma_lanes_placed(m, map, p, rows, i as nat, ch);
    let g0 = arrange::lanes_placed(arrange::empty_rows(rows), m, map, p, i as nat);
    lemma_lane_placed(g0, l, t, arrange::span(m), rows);
    let g1 = arrange::lanes_placed(arrange::empty_rows(rows), m, map, p, (i + 1) as nat);
    assert(g1 == arrange::lane_placed(g0, l, t, arrange::span(m)));
    lemma_lane_cell(g0, l, t, arrange::span(m), rows, q);
    if q < s < q + l[q]->0.len_rows {
        assert forall|j: int| 0 <= j < rows implies (#[trigger] g0[j])[ch].note is None by {}
        lemma_lane_hold(g0, l, t, arrange::span(m), rows, q, s);
    }
    lemma_lanes_after(m, map, p, rows, (i + 1) as nat, p.len(), ch, q);
    lemma_lanes_after(m, map, p, rows, (i + 1) as nat, p.len(), ch, s);
    let g2 = arrange::lanes_placed(arrange::empty_rows(rows), m, map, p, p.len());
    let keys = arrange::key_rows(arrange::drum_notes(m, r), arrange::row_ticks(m), rows);
    lemma_drums_placed(g2, map, keys, rows, rows);
    let g = arrange::drums_placed(g2, map, keys, rows).grid;
    assert(g[q][ch] == g2[q][ch]);
    assert(g[s][ch] == g2[s][ch]);
}

// ---------------------------------------------------------------- drums

/// Whether a key is struck on a row.
pub open spec fn is_struck(keys: Seq<u8>, k: u8) -> bool {
    exists|i: int| 0 <= i < keys.len() && #[trigger] keys[i] == k
}

/// Whether a priority list puts a key before another, or puts neither first.
pub open spec fn not_behind(list: Seq<u8>, a: u8, b: u8) -> bool {
    forall|j: int|
        0 <= j < list.len() && #[trigger] list[j] == b ==> exists|i: int|
            0 <= i <= j && #[trigger] list[i] == a
}

proof fn lemma_rank(list: Seq<u8>, k: u8, i: nat)
    requires
        i <= list.len(),
    ensures
        i <= arrange::rank(list, k, i) <= list.len(),
        arrange::rank(list, k, i) < list.len() ==> list[arrange::rank(list, k, i) as int] == k,
        forall|j: int| i <= j < arrange::rank(list, k, i) ==> #[trigger] list[j] != k,
    decreases list.len() - i,
{
    if i < list.len() && list[i as int] != k {
        lemma_rank(list, k, i + 1);
    }
}

proof fn lemma_not_behind(list: Seq<u8>, a: u8, b: u8)
    requires
        arrange::rank(list, a, 0) <= arrange::rank(list, b, 0),
    ensures
        not_behind(list, a, b),
{
    lemma_rank(list, a, 0);
    lemma_rank(list, b, 0);
    assert forall|j: int| 0 <= j < list.len() && #[trigger] list[j] == b implies exists|i: int|
        0 <= i <= j && #[trigger] list[i] == a by {
        assert(list[arrange::rank(list, a, 0) as int] == a);
    }
}

/// Whether hits are those that a map gives to the struck keys.
#[verifier::opaque]
spec fn are_hits(v: Seq<Hit>, map: MapView, keys: Seq<u8>, n: nat, samples: bool) -> bool {
    &&& forall|j: int| 0 <= j < v.len() ==> is_hit_of(#[trigger] v[j], map, keys, n, samples)
    &&& forall|i: int|
        0 <= i < n && map.drums.contains_key(#[trigger] keys[i]) && map.drums[keys[i]] is Dpcm
            == samples ==> exists|j: int| 0 <= j < v.len() && (#[trigger] v[j]).key == keys[i]
}

spec fn is_hit_of(h: Hit, map: MapView, keys: Seq<u8>, n: nat, samples: bool) -> bool {
    &&& exists|i: int| 0 <= i < n && #[trigger] keys[i] == h.key
    &&& map.drums.contains_key(h.key)
    &&& samples ==> map.drums[h.key] == DrumTarget::Dpcm(h.note)
    &&& !samples ==> map.drums[h.key] == (DrumTarget::Noi { note: h.note, instr: h.instr })
}

proof fn lemma_seen(map: MapView, keys: Seq<u8>, n: nat, k: u8)
    requires
        n <= keys.len(),
        arrange::hits(map, keys, n).seen.contains(k),
    ensures
        exists|i: int| 0 <= i < n && #[trigger] keys[i] == k,
    decreases n,
{
    let h = arrange::hits(map, keys, n).seen;
    let p = choose|p: int| 0 <= p < h.len() && h[p] == k;
    let b = arrange::hits(map, keys, (n - 1) as nat).seen;
    if p < b.len() {
        assert(b[p] == k);
        assert(b.contains(k));
        lemma_seen(map, keys, (n - 1) as nat, k);
    } else {
        assert(keys[n - 1] == k);
    }
}

proof fn lemma_are_hits(map: MapView, keys: Seq<u8>, n: nat)
    requires
        n <= keys.len(),
    ensures
        are_hits(arrange::hits(map, keys, n).dpcm, map, keys, n, true),
        are_hits(arrange::hits(map, keys, n).noi, map, keys, n, false),
    decreases n,
{
    if n == 0 {
        reveal(are_hits);
    } else {
        lemma_are_hits(map, keys, (n - 1) as nat);
        let b = arrange::hits(map, keys, (n - 1) as nat);
        let k = keys[n - 1];
        let m = (n - 1) as nat;
        assert(m + 1 == n);
        if b.seen.contains(k) {
            lemma_seen(map, keys, m, k);
            let i = choose|i: int| 0 <= i < n - 1 && #[trigger] keys[i] == k;
            lemma_same_hits(b.dpcm, map, keys, m, true, i);
            lemma_same_hits(b.noi, map, keys, m, false, i);
        } else if !map.drums.contains_key(k) {
            lemma_more_hits(b.dpcm, map, keys, m, true);
            lemma_more_hits(b.noi, map, keys, m, false);
        } else {
            match map.drums[k] {
                DrumTarget::Dpcm(slot) => {
                    let x = Hit { key: k, note: slot, instr: 0 };
                    lemma_new_hit(b.dpcm, map, keys, m, true, map.priority_dpcm, x);
                    lemma_more_hits(b.noi, map, keys, m, false);
                },
                DrumTarget::Noi { note, instr } => {
                    let x = Hit { key: k, note, instr };
                    lemma_new_hit(b.noi, map, keys, m, false, map.priority_noi, x);
                    lemma_more_hits(b.dpcm, map, keys, m, true);
                },
            }
        }
    }
}

proof fn lemma_hit_kept(h: Hit, map: MapView, keys: Seq<u8>, n: nat, samples: bool)
    requires
        is_hit_of(h, map, keys, n, samples),
    ensures
        is_hit_of(h, map, keys, n + 1, samples),
{
    let i = choose|i: int| 0 <= i < n && #[trigger] keys[i] == h.key;
    assert(keys[i] == h.key);
}

/// A key that was struck already adds no hit.
proof fn lemma_same_hits(v: Seq<Hit>, map: MapView, keys: Seq<u8>, n: nat, samples: bool, i: int)
    requires
        are_hits(v, map, keys, n, samples),
        0 <= i < n,
        keys[i] == keys[n as int],
    ensures
        are_hits(v, map, keys, n + 1, samples),
{
    reveal(are_hits);
    assert forall|j: int| 0 <= j < v.len() implies is_hit_of(
        #[trigger] v[j],
        map,
        keys,
        n + 1,
        samples,
    ) by {
        lemma_hit_kept(v[j], map, keys, n, samples);
    }
}

/// Nor does one for another channel.
proof fn lemma_more_hits(v: Seq<Hit>, map: MapView, keys: Seq<u8>, n: nat, samples: bool)
    requires
        are_hits(v, map, keys, n, samples),
        !(map.drums.contains_key(keys[n as int]) && map.drums[keys[n as int]] is Dpcm == samples),
    ensures
        are_hits(v, map, keys, n + 1, samples),
{
    reveal(are_hits);
    assert forall|j: int| 0 <= j < v.len() implies is_hit_of(
        #[trigger] v[j],
        map,
        keys,
        n + 1,
        samples,
    ) by {
        lemma_hit_kept(v[j], map, keys, n, samples);
    }
}

proof fn lemma_new_hit(
    v: Seq<Hit>,
    map: MapView,
    keys: Seq<u8>,
    n: nat,
    samples: bool,
    list: Seq<u8>,
    h: Hit,
)
    requires
        are_hits(v, map, keys, n, samples),
        h.key == keys[n as int],
        map.drums.contains_key(h.key),
        samples ==> map.drums[h.key] == DrumTarget::Dpcm(h.note),
        !samples ==> map.drums[h.key] == (DrumTarget::Noi { note: h.note, instr: h.instr }),
    ensures
        are_hits(arrange::with_hit(v, list, h), map, keys, n + 1, samples),
{
    reveal(are_hits);
    let w = arrange::with_hit(v, list, h);
    arrange::lemma_hit_place_order(v, list, h.key, v.len());
    let p = arrange::hit_place(v, list, h.key, v.len()) as int;
    assert(w[p] == h);
    assert(keys[n as int] == h.key);
    assert forall|j: int| 0 <= j < w.len() implies is_hit_of(
        #[trigger] w[j],
        map,
        keys,
        n + 1,
        samples,
    ) by {
        if j < p {
            assert(w[j] == v[j]);
            lemma_hit_kept(v[j], map, keys, n, samples);
        } else if j > p {
            assert(w[j] == v[j - 1]);
            lemma_hit_kept(v[j - 1], map, keys, n, samples);
        }
    }
    assert forall|i: int|
        0 <= i < n + 1 && map.drums.contains_key(#[trigger] keys[i]) && map.drums[keys[i]] is Dpcm
            == samples implies exists|j: int| 0 <= j < w.len() && (#[trigger] w[j]).key
        == keys[i] by {
        if i < n {
            let j = choose|j: int| 0 <= j < v.len() && (#[trigger] v[j]).key == keys[i];
            if j < p {
                assert(w[j] == v[j]);
            } else {
                assert(w[j + 1] == v[j]);
            }
        } else {
            assert(w[p].key == keys[i]);
        }
    }
}

proof fn lemma_noise_ranked(map: MapView, keys: Seq<u8>, n: nat)
    ensures
        arrange::hits_ranked(arrange::hits(map, keys, n).noi, map.priority_noi),
    decreases n,
{
    if n > 0 {
        lemma_noise_ranked(map, keys, (n - 1) as nat);
        let h = arrange::hits(map, keys, (n - 1) as nat);
        let k = keys[n - 1];
        if !h.seen.contains(k) && map.drums.contains_key(k) {
            if let DrumTarget::Noi { note, instr } = map.drums[k] {
                arrange::lemma_with_hit_ranked(
                    h.noi,
                    map.priority_noi,
                    Hit { key: k, note, instr },
                );
            }
        }
    }
}

/// Whether a struck key is meant for a sample.
pub open spec fn is_sample(map: MapView, k: u8) -> bool {
    map.drums.contains_key(k) && map.drums[k] is Dpcm
}

/// Whether a struck key is meant for noise.
pub open spec fn is_noise(map: MapView, k: u8) -> bool {
    map.drums.contains_key(k) && map.drums[k] is Noi
}

/// The sample channel plays a struck key's sample, slot by slot from middle C
/// up, and where several are struck one that the map's list puts first.
pub proof fn law_samples_are_struck_by_priority(map: MapView, keys: Seq<u8>)
    requires
        forall|k: u8| #[trigger] is_sample(map, k) ==> map.drums[k]->Dpcm_0 <= 195,
    ensures
        ({
            let d = arrange::drum_row(map, keys).dpcm;
            &&& d is None <==> forall|i: int|
                0 <= i < keys.len() ==> !is_sample(map, #[trigger] keys[i])
            &&& d is Some ==> exists|k: u8|
                is_struck(keys, k) && #[trigger] is_sample(map, k) && d->0 == 60
                    + map.drums[k]->Dpcm_0 && forall|i: int|
                    0 <= i < keys.len() && is_sample(map, #[trigger] keys[i]) ==> not_behind(
                        map.priority_dpcm,
                        k,
                        keys[i],
                    )
        }),
{
    reveal(are_hits);
    let n = keys.len();
    let v = arrange::hits(map, keys, n).dpcm;
    lemma_are_hits(map, keys, n);
    let d = arrange::drum_row(map, keys).dpcm;
    if v.len() == 0 {
        assert forall|i: int| 0 <= i < keys.len() implies !is_sample(map, #[trigger] keys[i]) by {}
    } else {
        let k = v[0].key;
        assert(is_hit_of(v[0], map, keys, n, true));
        assert(is_sample(map, k));
        assert(is_struck(keys, k));
        assert forall|i: int|
            0 <= i < keys.len() && is_sample(map, #[trigger] keys[i]) implies not_behind(
            map.priority_dpcm,
            k,
            keys[i],
        ) by {
            let j = choose|j: int| 0 <= j < v.len() && (#[trigger] v[j]).key == keys[i];
            arrange::law_priority_decides(map, keys, j);
            lemma_not_behind(map.priority_dpcm, k, keys[i]);
        }
        let i = choose|i: int| 0 <= i < n && #[trigger] keys[i] == k;
        assert(is_sample(map, keys[i]));
    }
}

proof fn lemma_fallen(map: MapView, v: Seq<Hit>, first: Option<Hit>, n: nat)
    requires
        n <= v.len(),
    ensures
        ({
            let r = arrange::fallen(map, v, first, n).0;
            &&& first is Some ==> r == first
            &&& first is None && r is Some ==> exists|j: int|
                1 <= j < n && falls_back(map, #[trigger] v[j], r->0)
            &&& r is None ==> forall|j: int, x: Hit|
                1 <= j < n ==> !#[trigger] falls_back(map, v[j], x)
        }),
    decreases n,
{
    if n > 1 {
        lemma_fallen(map, v, first, (n - 1) as nat);
        let r = arrange::fallen(map, v, first, n).0;
        if first is None && r is Some {
            if arrange::fallen(map, v, first, (n - 1) as nat).0 is None {
                assert(falls_back(map, v[n - 1], r->0));
            } else {
                let j = choose|j: int| 1 <= j < n - 1 && falls_back(map, #[trigger] v[j], r->0);
                assert(falls_back(map, v[j], r->0));
            }
        }
    }
}

/// Whether a hit is what another falls back to.
pub open spec fn falls_back(map: MapView, from: Hit, to: Hit) -> bool {
    &&& map.fallback.contains_key(from.key)
    &&& map.fallback[from.key] == (DrumTarget::Noi { note: to.note, instr: to.instr })
    &&& to.key == from.key
}

/// The noise channel plays a struck key's noise, one that the map's list puts
/// first. Where no key is meant for noise, a sample that was not played may
/// fall back to it, as the map says; otherwise it is silent.
pub proof fn law_noise_is_struck_by_priority(map: MapView, keys: Seq<u8>)
    ensures
        ({
            let d = arrange::drum_row(map, keys).noi;
            &&& (exists|i: int| 0 <= i < keys.len() && is_noise(map, #[trigger] keys[i])) ==> d
                is Some && exists|k: u8|
                is_struck(keys, k) && #[trigger] is_noise(map, k) && map.drums[k] == (
                DrumTarget::Noi { note: (d->0).0, instr: (d->0).1 }) && forall|i: int|
                    0 <= i < keys.len() && is_noise(map, #[trigger] keys[i]) ==> not_behind(
                        map.priority_noi,
                        k,
                        keys[i],
                    )
            &&& (forall|i: int| 0 <= i < keys.len() ==> !is_noise(map, #[trigger] keys[i])) && d
                is Some ==> exists|k: u8|
                is_struck(keys, k) && #[trigger] is_sample(map, k) && map.fallback.contains_key(k)
                    && map.fallback[k] == (DrumTarget::Noi { note: (d->0).0, instr: (d->0).1 })
        }),
{
    reveal(are_hits);
    let n = keys.len();
    let h = arrange::hits(map, keys, n);
    let v = h.noi;
    lemma_are_hits(map, keys, n);
    lemma_noise_ranked(map, keys, n);
    let first = if v.len() > 0 {
        Some(v[0])
    } else {
        None
    };
    lemma_fallen(map, h.dpcm, first, h.dpcm.len());
    let d = arrange::drum_row(map, keys).noi;
    if exists|i: int| 0 <= i < keys.len() && is_noise(map, #[trigger] keys[i]) {
        let i0 = choose|i: int| 0 <= i < keys.len() && is_noise(map, #[trigger] keys[i]);
        assert(map.drums.contains_key(keys[i0]) && map.drums[keys[i0]] is Dpcm == false);
        let j0 = choose|j: int| 0 <= j < v.len() && (#[trigger] v[j]).key == keys[i0];
        assert(v.len() > 0);
        let k = v[0].key;
        assert(is_hit_of(v[0], map, keys, n, false));
        assert(is_noise(map, k) && is_struck(keys, k));
        assert forall|i: int|
            0 <= i < keys.len() && is_noise(map, #[trigger] keys[i]) implies not_behind(
            map.priority_noi,
            k,
            keys[i],
        ) by {
            assert(map.drums[keys[i]] is Dpcm == false);
            let j = choose|j: int| 0 <= j < v.len() && (#[trigger] v[j]).key == keys[i];
            assert(arrange::rank(map.priority_noi, v[0].key, 0) <= arrange::rank(
                map.priority_noi,
                v[j].key,
                0,
            ));
            lemma_not_behind(map.priority_noi, k, keys[i]);
        }
    } else if d is Some {
        if v.len() > 0 {
            assert(is_hit_of(v[0], map, keys, n, false));
            let i = choose|i: int| 0 <= i < n && #[trigger] keys[i] == v[0].key;
            assert(is_noise(map, keys[i]));
        }
        let x = arrange::fallen(map, h.dpcm, first, h.dpcm.len()).0->0;
        let j = choose|j: int| 1 <= j < h.dpcm.len() && falls_back(map, #[trigger] h.dpcm[j], x);
        assert(is_hit_of(h.dpcm[j], map, keys, n, true));
        assert(is_sample(map, h.dpcm[j].key) && is_struck(keys, h.dpcm[j].key));
    }
}

/// The drums of a row stand on their channels: samples on the fifth and noise
/// on the fourth. What is silent leaves the row as it was.
pub proof fn law_drums_are_written(
    g: Seq<Seq<Cell>>,
    map: MapView,
    keys: Seq<Seq<u8>>,
    rows: nat,
    q: int,
)
    requires
        is_grid(g, rows),
        0 <= q < rows,
    ensures
        ({
            let d = arrange::drum_row(map, keys[q]);
            let row = arrange::drums_placed(g, map, keys, rows).grid[q];
            &&& d.dpcm is Some ==> row[4].note == d.dpcm && !row[4].hold
            &&& d.dpcm is None ==> row[4] == g[q][4]
            &&& d.noi is Some ==> row[3].note == Some((d.noi->0).0) && row[3].instr == (
            d.noi->0).1 && !row[3].hold
            &&& d.noi is None ==> row[3] == g[q][3]
        }),
{
    lemma_drums_placed(g, map, keys, rows, rows);
}

// ---------------------------------------------------------------- tempo

/// The tempo of a song is the whole number of beats nearest to the file's,
/// where there is one.
pub proof fn law_tempo_is_nearest(us: u32)
    requires
        us > 0,
    ensures
        arrange::bpm_of(us) < u16::MAX ==> is_nearest_row(
            arrange::bpm_of(us) as int,
            60_000_000,
            us as int,
        ),
        arrange::bpm_of(us) == u16::MAX ==> u16::MAX * us <= 60_000_000 + us,
{
    reveal(is_nearest_row);
    let a = 120_000_000 + us;
    let b = 2 * us;
    let q = a / b;
    vstd::arithmetic::div_mod::lemma_fundamental_div_mod(a, b);
    vstd::arithmetic::div_mod::lemma_mod_bound(a, b);
    assert(b * q == 2 * (q * us)) by (nonlinear_arith)
        requires
            b == 2 * us,
    ;
    if q >= u16::MAX {
        assert(q * us >= u16::MAX * us) by (nonlinear_arith)
            requires
                q >= u16::MAX,
                us > 0,
        ;
    }
}

// ---------------------------------------------------------------- tracks

/// Whether a track is one that a text asks for: it has notes, and the text is
/// a part of its name, in capitals or not.
pub open spec fn is_asked_for(t: TrackView, want: Seq<char>) -> bool {
    t.notes.len() > 0 && exists|a: Seq<char>, b: Seq<char>|
        #[trigger] (a + text::lower(want) + b) == text::lower(t.name)
}

/// Whether a track is the first of a file that a text asks for.
pub open spec fn is_first_asked_for(m: MidiView, i: int, want: Seq<char>) -> bool {
    &&& 0 <= i < m.tracks.len()
    &&& is_asked_for(m.tracks[i], want)
    &&& forall|j: int| 0 <= j < i ==> !is_asked_for(#[trigger] m.tracks[j], want)
}

proof fn lemma_asked_for(t: TrackView, want: Seq<char>)
    ensures
        is_asked_for(t, want) == arrange::is_wanted(t, want),
{
    let w = text::lower(want);
    let n = text::lower(t.name);
    if arrange::stands_in(w, n) {
        let i = choose|i: int|
            0 <= i && i + w.len() <= n.len() && #[trigger] n.subrange(i, i + w.len()) == w;
        let a = n.subrange(0, i);
        let b = n.subrange(i + w.len(), n.len() as int);
        assert(a + n.subrange(i, i + w.len()) + b == n);
        assert((a + w + b) == n);
    }
    if exists|a: Seq<char>, b: Seq<char>| #[trigger] (a + w + b) == n {
        let (a, b) = choose|a: Seq<char>, b: Seq<char>| #[trigger] (a + w + b) == n;
        assert((a + w + b).subrange(a.len() as int, (a.len() + w.len()) as int) == w);
    }
}

proof fn lemma_first_track(m: MidiView, want: Seq<char>, i: nat)
    requires
        i <= m.tracks.len(),
        forall|j: int| 0 <= j < i ==> !is_asked_for(#[trigger] m.tracks[j], want),
    ensures
        ({
            let r = arrange::track_index(m.tracks, want, i);
            &&& r <= m.tracks.len()
            &&& r < m.tracks.len() ==> is_first_asked_for(m, r as int, want)
            &&& r == m.tracks.len() ==> forall|j: int|
                0 <= j < m.tracks.len() ==> !is_asked_for(#[trigger] m.tracks[j], want)
        }),
    decreases m.tracks.len() - i,
{
    if i < m.tracks.len() {
        lemma_asked_for(m.tracks[i as int], want);
        if !is_asked_for(m.tracks[i as int], want) {
            lemma_first_track(m, want, i + 1);
        }
    }
}

/// Every line of a map finds the first track with notes that has its text in
/// its name. Pitched lines are routed in their order, the drums come from the
/// last line that gives them, and a line that finds no track is the fault.
pub proof fn law_tracks_are_found_by_name(m: MidiView, map: MapView, n: nat)
    requires
        n <= map.tracks.len() <= usize::MAX,
        m.tracks.len() <= usize::MAX,
    ensures
        match arrange::routing(m, map, n) {
            Ok(r) => {
                &&& forall|q: int|
                    0 <= q < r.pitched.len() ==> (#[trigger] r.pitched[q]).1 < n
                        && !map.tracks[r.pitched[q].1 as int].drums && is_first_asked_for(
                        m,
                        r.pitched[q].0 as int,
                        map.tracks[r.pitched[q].1 as int].midi,
                    )
                &&& forall|p: int, q: int|
                    0 <= p < q < r.pitched.len() ==> (#[trigger] r.pitched[p]).1 < (
                    #[trigger] r.pitched[q]).1
                &&& forall|k: int|
                    0 <= k < n && !(#[trigger] map.tracks[k]).drums ==> exists|q: int|
                        0 <= q < r.pitched.len() && (#[trigger] r.pitched[q]).1 == k
                &&& forall|k: int|
                    0 <= k < n && (#[trigger] map.tracks[k]).drums && (forall|l: int|
                        k < l < n ==> !(#[trigger] map.tracks[l]).drums) ==> r.drums is Some
                        && is_first_asked_for(m, r.drums->0 as int, map.tracks[k].midi)
                &&& (forall|l: int| 0 <= l < n ==> !(#[trigger] map.tracks[l]).drums)
                    ==> r.drums is None
            },
            Err(e) => exists|k: int|
                #![trigger map.tracks[k]]
                0 <= k < n && e == ImportError::NoTrack(k as usize) && forall|j: int|
                    0 <= j < m.tracks.len() ==> !is_asked_for(
                        #[trigger] m.tracks[j],
                        map.tracks[k].midi,
                    ),
        },
    decreases n,
{
    if n > 0 {
        law_tracks_are_found_by_name(m, map, (n - 1) as nat);
        let t = map.tracks[n - 1];
        lemma_first_track(m, t.midi, 0);
        if let Ok(before) = arrange::routing(m, map, (n - 1) as nat) {
            if let Ok(r) = arrange::routing(m, map, n) {
                assert forall|k: int| 0 <= k < n && !(#[trigger] map.tracks[k]).drums implies exists|
                    q: int,
                |
                    0 <= q < r.pitched.len() && (#[trigger] r.pitched[q]).1 == k by {
                    if k < n - 1 {
                        let q = choose|q: int|
                            0 <= q < before.pitched.len() && (#[trigger] before.pitched[q]).1 == k;
                        assert(r.pitched[q] == before.pitched[q]);
                    } else {
                        assert(r.pitched[r.pitched.len() - 1].1 == k);
                    }
                }
                assert forall|k: int|
                    0 <= k < n && (#[trigger] map.tracks[k]).drums && (forall|l: int|
                        k < l < n ==> !(#[trigger] map.tracks[l]).drums) implies r.drums is Some
                    && is_first_asked_for(m, r.drums->0 as int, map.tracks[k].midi) by {
                    if k < n - 1 {
                        assert(!map.tracks[n - 1].drums);
                    }
                }
            } else {
                assert(map.tracks[n - 1] == t);
            }
        }
    }
}

} // verus!
