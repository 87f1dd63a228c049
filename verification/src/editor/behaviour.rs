//! What keys and commands do, as the user sees it.

use vstd::prelude::*;

use crate::audio::LiveEvent;
use crate::editor;
use crate::editor::command;
use crate::editor::keys;
use crate::editor::keys::{Key, KeyCode};
use crate::editor::{EditorView, Mode, Operator, Pending};
use crate::song;
use crate::song::{Cell, Instrument, CHANNELS, STEPS_PER_PHRASE};
use crate::text;

verus! {

/// Whether the current phrase has all its cells.
pub open spec fn is_whole(g: Seq<Seq<Cell>>) -> bool {
    &&& g.len() == STEPS_PER_PHRASE
    &&& forall|s: int| 0 <= s < STEPS_PER_PHRASE ==> (#[trigger] g[s]).len() == CHANNELS
}

/// Whether the editor takes keys in a mode, with nothing pending.
pub open spec fn is_ready(e: EditorView, mode: Mode) -> bool {
    &&& editor::valid(e)
    &&& is_whole(editor::grid(e))
    &&& !e.show_splash
    &&& e.mode == mode
    &&& e.pending == Pending::Nothing
}

pub open spec fn code(c: KeyCode) -> Key {
    Key { code: c, ctrl: false }
}

pub open spec fn cell(e: EditorView, s: int, c: int) -> Cell {
    editor::grid(e)[s][c]
}

/// Whether nothing but the cursor and the count has changed.
pub open spec fn only_moved(a: EditorView, b: EditorView) -> bool {
    b == EditorView { cursor_step: b.cursor_step, cursor_ch: b.cursor_ch, count: b.count, ..a }
}

/// Whether two editors have the same phrase but for one cell.
pub open spec fn same_but(a: EditorView, b: EditorView, s: int, c: int) -> bool {
    forall|i: int, j: int|
        0 <= i < STEPS_PER_PHRASE && 0 <= j < CHANNELS && !(i == s && j == c) ==> cell(b, i, j)
            == #[trigger] cell(a, i, j)
}

// ---------------------------------------------------------------- keys

/// What a key does.
#[verifier::opaque]
pub open spec fn pressed(e: EditorView, k: Key) -> EditorView {
    keys::key_pressed(e, k)
}

proof fn lemma_normal(e: EditorView, k: Key)
    requires
        !e.show_splash,
        e.mode == Mode::Normal,
    ensures
        pressed(e, k) == keys::normal_key(e, k),
{
    reveal(pressed);
}

proof fn lemma_plain(e: EditorView, k: Key)
    requires
        is_ready(e, Mode::Normal),
    ensures
        pressed(e, k) == keys::plain_key(e, k),
{
    lemma_normal(e, k);
}

proof fn lemma_motion(e: EditorView, k: Key)
    requires
        is_ready(e, Mode::Normal),
        !keys::counts(e, k),
        keys::motion(e, k) is Some,
    ensures
        pressed(e, k) == keys::motion(e, k)->0,
{
    lemma_plain(e, k);
}

proof fn lemma_edit(e: EditorView, k: Key)
    requires
        is_ready(e, Mode::Normal),
        !keys::counts(e, k),
        keys::motion(e, k) is None,
        keys::edit_key(e, k) is Some,
    ensures
        pressed(e, k) == keys::edit_key(e, k)->0,
{
    lemma_plain(e, k);
}

proof fn lemma_switch(e: EditorView, c: char)
    requires
        is_ready(e, Mode::Normal),
        c == ' ' || c == ':' || c == 'v' || c == 'V' || c == 'K',
    ensures
        pressed(e, keys::typed(c)) == keys::switch_key(e, keys::typed(c)),
{
    let k = keys::typed(c);
    lemma_plain(e, k);
    assert(!keys::counts(e, k));
    assert(keys::motion(e, k) is None);
    assert(keys::edit_key(e, k) is None);
    assert(keys::prefix_key(e, k) is None);
}

proof fn lemma_operator(e: EditorView, op: Operator)
    requires
        is_ready(e, Mode::Normal),
    ensures
        pressed(e, keys::typed(operator_key(op))) == (EditorView { pending: Pending::Op(op), ..e }),
{
    let k = keys::typed(operator_key(op));
    lemma_plain(e, k);
    assert(!keys::counts(e, k));
    assert(keys::motion(e, k) is None);
    assert(keys::edit_key(e, k) is None);
}

proof fn lemma_doubled(e: EditorView, op: Operator)
    requires
        !e.show_splash,
        e.mode == Mode::Normal,
        e.pending == Pending::Op(op),
    ensures
        pressed(e, keys::typed(operator_key(op))) == editor::rows_operated(
            EditorView { pending: Pending::Nothing, count: 0, ..e },
            op,
            editor::times(e),
        ),
{
    let k = keys::typed(operator_key(op));
    lemma_normal(e, k);
    assert(!keys::counts(e, k));
    assert(keys::normal_key(e, k) == keys::op_pending_key(e, op, k));
}

proof fn lemma_scope(e: EditorView, op: Operator, scope: char)
    requires
        !e.show_splash,
        e.mode == Mode::Normal,
        e.pending == Pending::Op(op),
        scope == 'a' || scope == 'i',
    ensures
        pressed(e, keys::typed(scope)) == (EditorView {
            pending: Pending::OpScope(op, scope),
            ..e
        }),
{
    let k = keys::typed(scope);
    lemma_normal(e, k);
    assert(!keys::counts(e, k));
    assert(keys::normal_key(e, k) == keys::op_pending_key(e, op, k));
}

proof fn lemma_object(e: EditorView, op: Operator, scope: char, obj: char)
    requires
        !e.show_splash,
        e.mode == Mode::Normal,
        e.pending == Pending::OpScope(op, scope),
        obj == 'b' || obj == 'p' || obj == 'v',
    ensures
        pressed(e, keys::typed(obj)) == editor::object_operated(
            EditorView { pending: Pending::Nothing, count: 0, ..e },
            op,
            obj,
            editor::times(e),
        ),
{
    let k = keys::typed(obj);
    lemma_normal(e, k);
    assert(keys::normal_key(e, k) == keys::scope_pending_key(e, op, k));
}

proof fn lemma_visual(e: EditorView, key: char)
    requires
        is_ready(e, Mode::Visual),
        key == 'd' || key == 'x' || key == 'c' || key == 'y',
    ensures
        pressed(e, keys::typed(key)) == editor::selection_operated(
            e,
            if key == 'y' {
                Operator::Yank
            } else if key == 'c' {
                Operator::Change
            } else {
                Operator::Delete
            },
        ),
{
    let k = keys::typed(key);
    reveal(pressed);
    assert(!keys::counts(e, k));
    assert(keys::motion(e, k) is None);
    assert(keys::key_pressed(e, k) == keys::visual_key(e, k));
}

proof fn lemma_insert(e: EditorView, k: Key)
    requires
        is_ready(e, Mode::Insert),
    ensures
        pressed(e, k) == keys::insert_key(e, k),
{
    reveal(pressed);
}

proof fn lemma_live(e: EditorView, k: Key)
    requires
        is_ready(e, Mode::Live),
    ensures
        pressed(e, k) == keys::live_key(e, k),
{
    reveal(pressed);
}

proof fn lemma_instrument(e: EditorView, k: Key)
    requires
        is_ready(e, Mode::Instrument),
    ensures
        pressed(e, k) == keys::instrument_key(e, k),
{
    reveal(pressed);
}

// ---------------------------------------------------------------- motions

/// `j` and `k` go down and up a step, `h` and `l` a channel to the left and
/// right, or as many as were counted, up to the edge; the arrows do the same.
/// Nothing else changes.
pub proof fn law_letters_and_arrows_move(e: EditorView)
    requires
        is_ready(e, Mode::Normal),
    ensures
        ({
            let n = if e.count == 0 {
                1int
            } else {
                e.count as int
            };
            let j = pressed(e, keys::typed('j'));
            let k = pressed(e, keys::typed('k'));
            let h = pressed(e, keys::typed('h'));
            let l = pressed(e, keys::typed('l'));
            &&& pressed(e, code(KeyCode::Down)) == j
            &&& pressed(e, code(KeyCode::Up)) == k
            &&& pressed(e, code(KeyCode::Left)) == h
            &&& pressed(e, code(KeyCode::Right)) == l
            &&& only_moved(e, j) && j.cursor_ch == e.cursor_ch && j.count == 0
            &&& only_moved(e, k) && k.cursor_ch == e.cursor_ch && k.count == 0
            &&& only_moved(e, h) && h.cursor_step == e.cursor_step && h.count == 0
            &&& only_moved(e, l) && l.cursor_step == e.cursor_step && l.count == 0
            &&& e.cursor_step + n <= 15 ==> j.cursor_step == e.cursor_step + n
            &&& e.cursor_step + n > 15 ==> j.cursor_step == 15
            &&& e.cursor_step >= n ==> k.cursor_step == e.cursor_step - n
            &&& e.cursor_step < n ==> k.cursor_step == 0
            &&& e.cursor_ch >= n ==> h.cursor_ch == e.cursor_ch - n
            &&& e.cursor_ch < n ==> h.cursor_ch == 0
            &&& e.cursor_ch + n <= 4 ==> l.cursor_ch == e.cursor_ch + n
            &&& e.cursor_ch + n > 4 ==> l.cursor_ch == 4
        }),
{
    lemma_motion(e, keys::typed('j'));
    lemma_motion(e, keys::typed('k'));
    lemma_motion(e, keys::typed('h'));
    lemma_motion(e, keys::typed('l'));
    lemma_motion(e, code(KeyCode::Down));
    lemma_motion(e, code(KeyCode::Up));
    lemma_motion(e, code(KeyCode::Left));
    lemma_motion(e, code(KeyCode::Right));
}

/// `w` and `b` go a beat down and up, `g` and `G` to the first and the last
/// step, `0` and `$` to the first and the last channel.
pub proof fn law_leaps_go_to_their_places(e: EditorView)
    requires
        is_ready(e, Mode::Normal),
    ensures
        ({
            let w = pressed(e, keys::typed('w'));
            let b = pressed(e, keys::typed('b'));
            let first = pressed(e, keys::typed('g'));
            let last = pressed(e, keys::typed('G'));
            let end = pressed(e, keys::typed('$'));
            &&& only_moved(e, w) && only_moved(e, b) && only_moved(e, first) && only_moved(e, last)
            &&& only_moved(e, end)
            &&& e.cursor_step <= 11 ==> w.cursor_step == e.cursor_step + 4
            &&& e.cursor_step > 11 ==> w.cursor_step == 15
            &&& e.cursor_step >= 4 ==> b.cursor_step == e.cursor_step - 4
            &&& e.cursor_step < 4 ==> b.cursor_step == 0
            &&& first.cursor_step == 0 && last.cursor_step == 15
            &&& end.cursor_ch == 4
            &&& e.count == 0 ==> pressed(e, keys::typed('0')).cursor_ch == 0
        }),
{
    lemma_motion(e, keys::typed('w'));
    lemma_motion(e, keys::typed('b'));
    lemma_motion(e, keys::typed('g'));
    lemma_motion(e, keys::typed('G'));
    lemma_motion(e, keys::typed('$'));
    if e.count == 0 {
        lemma_motion(e, keys::typed('0'));
    }
}

// ---------------------------------------------------------------- notes

/// The keys of the piano row, from the left.
pub open spec fn piano_row() -> Seq<char> {
    "zsxdcvgbhnjm,l.;/"@
}

/// The piano row is chromatic: each key is a semitone above the one to its
/// left, and the first is the C of the octave. No other key plays a note.
pub proof fn law_the_piano_row_is_chromatic(c: char, octave: u8, i: int)
    requires
        octave <= 8,
    ensures
        piano_row().len() == 17,
        0 <= i < 17 ==> editor::piano_note(piano_row()[i], octave) == Some(
            (12 * (octave + 1) + i) as u8,
        ),
        !piano_row().contains(c) ==> editor::piano_note(c, octave) is None,
{
    reveal_strlit("zsxdcvgbhnjm,l.;/");
    let p = piano_row();
    assert(p[0] == 'z' && p[1] == 's' && p[2] == 'x' && p[3] == 'd' && p[4] == 'c' && p[5] == 'v');
    assert(p[6] == 'g' && p[7] == 'b' && p[8] == 'h' && p[9] == 'n' && p[10] == 'j' && p[11]
        == 'm');
    assert(p[12] == ',' && p[13] == 'l' && p[14] == '.' && p[15] == ';' && p[16] == '/');
    if !p.contains(c) {
        assert(p.contains(p[0]) && p.contains(p[1]) && p.contains(p[2]) && p.contains(p[3]));
        assert(p.contains(p[4]) && p.contains(p[5]) && p.contains(p[6]) && p.contains(p[7]));
        assert(p.contains(p[8]) && p.contains(p[9]) && p.contains(p[10]) && p.contains(p[11]));
        assert(p.contains(p[12]) && p.contains(p[13]) && p.contains(p[14]) && p.contains(p[15]));
        assert(p.contains(p[16]));
    }
}

/// A key of the piano row, while inserting, writes its note under the cursor
/// on the selected instrument, leaves all other cells, and goes on by the edit
/// step.
pub proof fn law_typed_notes_are_written(e: EditorView, i: int)
    requires
        is_ready(e, Mode::Insert),
        0 <= i < 17,
        e.song.edit_step >= 1,
    ensures
        ({
            let x = pressed(e, keys::typed(piano_row()[i]));
            let y = cell(x, e.cursor_step as int, e.cursor_ch as int);
            let was = cell(e, e.cursor_step as int, e.cursor_ch as int);
            &&& y.note == Some((12 * (e.insert_octave + 1) + i) as u8)
            &&& y.instr == e.selected_instr && !y.hold && y.vol == was.vol && y.fx == was.fx
            &&& same_but(e, x, e.cursor_step as int, e.cursor_ch as int)
            &&& x.cursor_ch == e.cursor_ch && x.mode == Mode::Insert
            &&& e.cursor_step + e.song.edit_step <= 15 ==> x.cursor_step == e.cursor_step
                + e.song.edit_step
            &&& e.cursor_step + e.song.edit_step > 15 ==> x.cursor_step == 15
        }),
{
    law_the_piano_row_is_chromatic('z', e.insert_octave, i);
    reveal_strlit("zsxdcvgbhnjm,l.;/");
    lemma_insert(e, keys::typed(piano_row()[i]));
    let x = pressed(e, keys::typed(piano_row()[i]));
    let note = (12 * (e.insert_octave + 1) + i) as u8;
    assert(x == editor::note_inserted(e, note));
    assert(editor::grid(x) == song::put_cell(
        editor::grid(e),
        e.cursor_step as int,
        e.cursor_ch as int,
        editor::renoted(editor::under(e), note, e.selected_instr),
    ));
}

/// While notes are played by hand a key of the piano row ends the channel's
/// note and strikes its own, on the selected instrument at full volume. On an
/// armed channel it is written down as well, under the playhead while the song
/// plays and else under the cursor; on others nothing is.
pub proof fn law_played_notes_sound_and_are_recorded(e: EditorView, i: int)
    requires
        is_ready(e, Mode::Live),
        e.recording.len() == CHANNELS,
        0 <= i < 17,
    ensures
        ({
            let x = pressed(e, keys::typed(piano_row()[i]));
            let note = (12 * (e.insert_octave + 1) + i) as u8;
            let ch = e.cursor_ch as int;
            let s = if e.playing {
                e.play_step as int
            } else {
                e.cursor_step as int
            };
            let y = cell(x, s, ch);
            &&& x.live.len() == e.live.len() + 2
            &&& x.live[e.live.len() as int] == (LiveEvent::GateOff { ch: ch as u8 })
            &&& x.live.last() matches LiveEvent::GateOn { ch: c, note: n, instr, vel, hold_ms } && c
                == ch && n == note && instr == e.selected_instr && vel == 15 && hold_ms is Some
            &&& e.recording[ch] ==> y.note == Some(note) && y.instr == e.selected_instr && !y.hold
            &&& e.recording[ch] ==> same_but(e, x, s, ch)
            &&& !e.recording[ch] ==> x.song == e.song
        }),
{
    law_the_piano_row_is_chromatic('z', e.insert_octave, i);
    reveal_strlit("zsxdcvgbhnjm,l.;/");
    let note = (12 * (e.insert_octave + 1) + i) as u8;
    lemma_live(e, keys::typed(piano_row()[i]));
    let x = pressed(e, keys::typed(piano_row()[i]));
    assert(x == keys::live_note(e, note));
    if e.recording[e.cursor_ch as int] {
        let s = editor::record_step(e) as int;
        assert(editor::grid(x) == song::put_cell(
            editor::grid(e),
            s,
            e.cursor_ch as int,
            editor::renoted(editor::grid(e)[s][e.cursor_ch as int], note, e.selected_instr),
        ));
    }
}

/// `<` and `>` move the octave of typed notes down and up, from 0 to 8.
pub proof fn law_octaves_go_up_and_down(e: EditorView)
    requires
        is_ready(e, Mode::Insert) || is_ready(e, Mode::Live),
    ensures
        ({
            let down = pressed(e, keys::typed('<'));
            let up = pressed(e, keys::typed('>'));
            &&& e.insert_octave > 0 ==> down.insert_octave == e.insert_octave - 1
            &&& e.insert_octave == 0 ==> down.insert_octave == 0
            &&& e.insert_octave < 8 ==> up.insert_octave == e.insert_octave + 1
            &&& e.insert_octave == 8 ==> up.insert_octave == 8
            &&& down.song == e.song && up.song == e.song
        }),
{
    if e.mode == Mode::Insert {
        lemma_insert(e, keys::typed('<'));
        lemma_insert(e, keys::typed('>'));
    } else {
        lemma_live(e, keys::typed('<'));
        lemma_live(e, keys::typed('>'));
    }
}

// ---------------------------------------------------------------- operators

/// The steps that an operator takes: rows from the cursor on, bars from the
/// cursor's on, or all.
pub open spec fn is_taken(e: EditorView, obj: char, n: int, s: int, c: int) -> bool {
    if obj == 'r' {
        e.cursor_step <= s < e.cursor_step + n
    } else if obj == 'b' {
        e.cursor_step as int / 4 <= s / 4 < e.cursor_step as int / 4 + n
    } else if obj == 'p' {
        true
    } else {
        c == e.cursor_ch
    }
}

/// What comes of an operator on an object, and of how many.
pub open spec fn done_to(e: EditorView, op: Operator, obj: char, n: u32) -> EditorView {
    if obj == 'r' {
        editor::rows_operated(e, op, n)
    } else {
        editor::object_operated(e, op, obj, n)
    }
}

/// Operators take what they name, and nothing else: `d` and `c` empty whole
/// rows, bars, the phrase or the channel, and `y` leaves them. What they took
/// is in the register, from its first cell on, and `c` goes on with inserting.
pub proof fn law_operators_take_their_objects(
    e: EditorView,
    op: Operator,
    obj: char,
    n: u32,
    s: int,
    c: int,
)
    requires
        is_ready(e, Mode::Normal),
        obj == 'r' || obj == 'b' || obj == 'p' || obj == 'v',
        n >= 1,
        0 <= s < STEPS_PER_PHRASE,
        0 <= c < CHANNELS,
    ensures
        ({
            let x = done_to(e, op, obj, n);
            let first = if obj == 'r' {
                e.cursor_step as int
            } else if obj == 'b' {
                e.cursor_step as int / 4 * 4
            } else {
                0
            };
            let left = if obj == 'v' {
                e.cursor_ch as int
            } else {
                0
            };
            &&& op == Operator::Yank ==> x.song == e.song
            &&& op != Operator::Yank && is_taken(e, obj, n as int, s, c) ==> cell(x, s, c)
                == song::empty_cell()
            &&& op != Operator::Yank && !is_taken(e, obj, n as int, s, c) ==> cell(x, s, c) == cell(
                e,
                s,
                c,
            )
            &&& is_taken(e, obj, n as int, s, c) ==> {
                &&& first <= s < first + x.register.len()
                &&& left <= c < left + x.register[s - first].len()
                &&& x.register[s - first][c - left] == cell(e, s, c)
            }
            &&& op == Operator::Change ==> x.mode == Mode::Insert && x.cursor_step == first
                && x.cursor_ch == left
            &&& op != Operator::Change ==> x.mode == Mode::Normal
        }),
{
    let b = if obj == 'r' {
        editor::rows_area(e, n)
    } else if obj == 'b' {
        editor::bars_area(e, n)
    } else if obj == 'p' {
        editor::Area { s0: 0, s1: STEPS_PER_PHRASE, c0: 0, c1: CHANNELS }
    } else {
        editor::Area {
            s0: 0,
            s1: STEPS_PER_PHRASE,
            c0: e.cursor_ch,
            c1: (e.cursor_ch + 1) as usize,
        }
    };
    let x = done_to(e, op, obj, n);
    assert(x.register == editor::cut_out(editor::grid(e), b));
    assert(is_taken(e, obj, n as int, s, c) == editor::covers(b, s, c));
    if op != Operator::Yank {
        assert(editor::grid(x) == editor::cleared(editor::grid(e), b));
    }
}

/// The keys of an operator.
pub open spec fn operator_key(op: Operator) -> char {
    match op {
        Operator::Delete => 'd',
        Operator::Yank => 'y',
        Operator::Change => 'c',
    }
}

/// An operator's key twice takes rows, and with `a` or `i` and the object's
/// letter between it takes bars, the phrase or the channel: one, or as many as
/// were counted.
pub proof fn law_operators_are_typed(e: EditorView, op: Operator, scope: char, obj: char)
    requires
        is_ready(e, Mode::Normal),
        scope == 'a' || scope == 'i',
        obj == 'b' || obj == 'p' || obj == 'v',
    ensures
        ({
            let n = if e.count == 0 {
                1u32
            } else {
                e.count
            };
            let bare = EditorView { count: 0, ..e };
            let one = pressed(e, keys::typed(operator_key(op)));
            let two = pressed(one, keys::typed(operator_key(op)));
            let part = pressed(one, keys::typed(scope));
            &&& two == done_to(bare, op, 'r', n)
            &&& pressed(part, keys::typed(obj)) == done_to(bare, op, obj, n)
        }),
{
    let bare = EditorView { count: 0, ..e };
    lemma_operator(e, op);
    let one = pressed(e, keys::typed(operator_key(op)));
    lemma_doubled(one, op);
    assert(EditorView { pending: Pending::Nothing, count: 0, ..one } == bare);
    lemma_scope(one, op, scope);
    let part = pressed(one, keys::typed(scope));
    lemma_object(part, op, scope, obj);
    assert(EditorView { pending: Pending::Nothing, count: 0, ..part } == bare);
}

/// `x` empties the cell under the cursor and no other.
pub proof fn law_x_deletes_the_cell(e: EditorView)
    requires
        is_ready(e, Mode::Normal),
        e.count <= 1,
    ensures
        ({
            let x = pressed(e, keys::typed('x'));
            &&& cell(x, e.cursor_step as int, e.cursor_ch as int) == song::empty_cell()
            &&& same_but(e, x, e.cursor_step as int, e.cursor_ch as int)
        }),
{
    lemma_edit(e, keys::typed('x'));
    let x = pressed(e, keys::typed('x'));
    let a = editor::uncounted(e);
    assert(x == keys::deleted_down(a, 1));
    let d = editor::moved_down(editor::cell_deleted(a), 1);
    assert(keys::deleted_down(d, 0) == d);
    assert(editor::grid(x) == song::put_cell(
        editor::grid(e),
        e.cursor_step as int,
        e.cursor_ch as int,
        song::empty_cell(),
    ));
}

/// `p` lays the register below the cursor and `P` at it: whole rows from the
/// first channel on, other blocks from the cursor's. Cells that it does not
/// reach stay.
pub proof fn law_pasting_lays_the_register(e: EditorView, after: bool, s: int, c: int)
    requires
        is_ready(e, Mode::Normal),
        e.register.len() > 0,
        forall|i: int|
            0 <= i < e.register.len() ==> (#[trigger] e.register[i]).len() == e.register[0].len(),
        0 <= s < STEPS_PER_PHRASE,
        0 <= c < CHANNELS,
    ensures
        ({
            let x = pressed(
                e,
                keys::typed(
                    if after {
                        'p'
                    } else {
                        'P'
                    },
                ),
            );
            let i = if after {
                s - e.cursor_step - 1
            } else {
                s - e.cursor_step
            };
            let j = if e.register[0].len() == CHANNELS {
                c
            } else {
                c - e.cursor_ch
            };
            let reached = 0 <= i < e.register.len() && 0 <= j < e.register[0].len();
            &&& reached ==> cell(x, s, c) == e.register[i][j]
            &&& !reached ==> cell(x, s, c) == cell(e, s, c)
            &&& x.register == e.register
        }),
{
    let k = keys::typed(
        if after {
            'p'
        } else {
            'P'
        },
    );
    lemma_edit(e, k);
    let x = pressed(e, k);
    assert(x == editor::pasted(e, after));
    let start = if after {
        e.cursor_step + 1
    } else {
        e.cursor_step as int
    };
    assert(editor::grid(x) == editor::laid(
        editor::grid(e),
        e.register,
        start,
        editor::paste_channel(e),
    ));
    if 0 <= s - start < e.register.len() {
        assert(e.register[s - start].len() == e.register[0].len());
    }
}

/// Whether a cell is in the rectangle between the anchor and the cursor, or on
/// its lines.
pub open spec fn is_selected(e: EditorView, s: int, c: int) -> bool {
    let (a, b) = e.anchor->0;
    &&& (a <= s <= e.cursor_step) || (e.cursor_step <= s <= a)
    &&& e.linewise || (b <= c <= e.cursor_ch) || (e.cursor_ch <= c <= b)
}

/// `d`, `x` and `c` empty the selection and nothing else, and `y` leaves it;
/// all end it.
pub proof fn law_selections_are_operated_on(e: EditorView, key: char, s: int, c: int)
    requires
        is_ready(e, Mode::Visual),
        e.anchor is Some,
        key == 'd' || key == 'x' || key == 'c' || key == 'y',
        0 <= s < STEPS_PER_PHRASE,
        0 <= c < CHANNELS,
    ensures
        ({
            let x = pressed(e, keys::typed(key));
            &&& key != 'y' && is_selected(e, s, c) ==> cell(x, s, c) == song::empty_cell()
            &&& key != 'y' && !is_selected(e, s, c) ==> cell(x, s, c) == cell(e, s, c)
            &&& key == 'y' ==> x.song == e.song
            &&& x.anchor is None
            &&& key == 'c' ==> x.mode == Mode::Insert
            &&& key != 'c' ==> x.mode == Mode::Normal
            &&& is_selected(e, s, c) ==> x.register[s - x.cursor_step][c - x.cursor_ch] == cell(
                e,
                s,
                c,
            )
        }),
{
    lemma_visual(e, key);
    let x = pressed(e, keys::typed(key));
    let b = editor::selected_area(e);
    assert(is_selected(e, s, c) == editor::covers(b, s, c));
    assert(x.register == editor::cut_out(editor::grid(e), b));
    if key != 'y' {
        assert(editor::grid(x) == editor::cleared(editor::grid(e), b));
    }
}

/// `u` takes the last change back and control-R makes it again; a space starts
/// and stops the song; `:` begins a command; `i` begins inserting, and `a` one
/// step on.
pub proof fn law_single_keys_do_their_work(e: EditorView)
    requires
        is_ready(e, Mode::Normal),
    ensures
        pressed(e, keys::typed('u')) == editor::undone(e),
        pressed(e, Key { code: KeyCode::Char('r'), ctrl: true }) == editor::redone(e),
        pressed(e, keys::typed(' ')).playing == !e.playing,
        pressed(e, keys::typed(' ')).song == e.song,
        pressed(e, keys::typed(':')).mode == Mode::Command,
        pressed(e, keys::typed(':')).command.len() == 0,
        pressed(e, keys::typed('i')).mode == Mode::Insert,
        pressed(e, keys::typed('i')).cursor_step == e.cursor_step,
        pressed(e, keys::typed('a')).mode == Mode::Insert,
        e.cursor_step < 15 ==> pressed(e, keys::typed('a')).cursor_step == e.cursor_step
            + 1,
        pressed(e, keys::typed('v')).anchor == Some((e.cursor_step, e.cursor_ch)),
        pressed(e, keys::typed('v')).mode == Mode::Visual,
        !pressed(e, keys::typed('v')).linewise,
        pressed(e, keys::typed('V')).linewise,
        pressed(e, keys::typed('K')).mode == Mode::Live,
{
    lemma_edit(e, keys::typed('u'));
    lemma_edit(e, Key { code: KeyCode::Char('r'), ctrl: true });
    lemma_edit(e, keys::typed('i'));
    lemma_edit(e, keys::typed('a'));
    lemma_switch(e, ' ');
    lemma_switch(e, ':');
    lemma_switch(e, 'v');
    lemma_switch(e, 'V');
    lemma_switch(e, 'K');
}

// ---------------------------------------------------------------- instruments

/// A parameter of an instrument by number: attack, decay, sustain, release,
/// duty and volume.
pub open spec fn parameter(i: Instrument, p: int) -> int {
    if p == 0 {
        i.attack_ms as int
    } else if p == 1 {
        i.decay_ms as int
    } else if p == 2 {
        i.sustain as int
    } else if p == 3 {
        i.release_ms as int
    } else if p == 4 {
        i.duty as int
    } else {
        i.volume as int
    }
}

/// Tuning an instrument moves the chosen parameter alone: `l` up and `h` down
/// by as much, and both stop at the parameter's bounds. Other instruments and
/// all phrases stay.
pub proof fn law_tuning_moves_one_parameter(e: EditorView, q: int, j: int)
    requires
        is_ready(e, Mode::Instrument),
        e.song.instruments.len() == song::INSTRUMENTS,
        0 <= q < 6,
        0 <= j < song::INSTRUMENTS,
    ensures
        ({
            let up = pressed(e, keys::typed('l'));
            let down = pressed(e, keys::typed('h'));
            let i = e.selected_instr as int;
            let p = e.instr_param as int;
            let was = parameter(e.song.instruments[i], p);
            let step = if p == 0 {
                2int
            } else if p == 1 {
                5
            } else if p == 3 {
                10
            } else {
                50
            };
            let low = if p == 4 {
                50int
            } else {
                0
            };
            let high = if p < 2 {
                5000int
            } else if p == 3 {
                10_000
            } else if p == 4 {
                950
            } else {
                1000
            };
            &&& q != p ==> parameter(up.song.instruments[i], q) == parameter(
                e.song.instruments[i],
                q,
            )
            &&& q != p ==> parameter(down.song.instruments[i], q) == parameter(
                e.song.instruments[i],
                q,
            )
            &&& low <= was <= high ==> {
                &&& was + step <= high ==> parameter(up.song.instruments[i], p) == was + step
                &&& was + step > high ==> parameter(up.song.instruments[i], p) == high
                &&& was - step >= low ==> parameter(down.song.instruments[i], p) == was - step
                &&& was - step < low ==> parameter(down.song.instruments[i], p) == low
            }
            &&& j != i ==> up.song.instruments[j] == e.song.instruments[j]
            &&& j != i ==> down.song.instruments[j] == e.song.instruments[j]
            &&& up.song.phrases == e.song.phrases && down.song.phrases == e.song.phrases
        }),
{
    lemma_instrument(e, keys::typed('l'));
    lemma_instrument(e, keys::typed('h'));
}

// ---------------------------------------------------------------- commands

/// `:vol` changes the volume under the cursor and `:fx` its effect, each that
/// alone and in that cell alone.
pub proof fn law_cells_are_changed_in_place(e: EditorView, tok: Seq<char>)
    requires
        editor::valid(e),
        is_whole(editor::grid(e)),
        editor::under(e).note is Some,
    ensures
        ({
            let s = e.cursor_step as int;
            let c = e.cursor_ch as int;
            let was = cell(e, s, c);
            let v = command::vol_set(e, tok);
            let f = command::fx_set(e, tok);
            let off = command::fx_cleared(e);
            &&& same_but(e, v, s, c) && same_but(e, f, s, c) && same_but(e, off, s, c)
            &&& cell(v, s, c) == (Cell { vol: cell(v, s, c).vol, ..was })
            &&& cell(f, s, c) == (Cell { fx: cell(f, s, c).fx, ..was })
            &&& cell(off, s, c) == (Cell { fx: None, ..was })
            &&& text::parse_uint(tok, 16, 255) matches Some(n) ==> (n <= 15 ==> cell(v, s, c).vol
                == n) && (n > 15 ==> v.song == e.song)
            &&& text::parse_uint(tok, 16, 255) is None ==> v.song == e.song
        }),
{
    let v = command::vol_set(e, tok);
    let f = command::fx_set(e, tok);
    let off = command::fx_cleared(e);
    let s = e.cursor_step as int;
    let c = e.cursor_ch as int;
    assert(editor::grid(v) == song::put_cell(editor::grid(e), s, c, cell(v, s, c)) || v.song
        == e.song);
    assert(editor::grid(f) == song::put_cell(editor::grid(e), s, c, cell(f, s, c)) || f.song
        == e.song);
    assert(editor::grid(off) == song::put_cell(editor::grid(e), s, c, cell(off, s, c)) || off.song
        == e.song);
}

/// Transposing moves every pitched note of the phrase by as many semitones as
/// are asked for, as far as there are notes.
pub proof fn law_transposing_moves_by_semitones(g: Seq<Seq<Cell>>, by: int, s: int, c: int)
    requires
        is_whole(g),
        0 <= s < STEPS_PER_PHRASE,
        0 <= c < 3,
    ensures
        ({
            let x = command::moved_grid(g, by)[s][c];
            &&& g[s][c].note is None ==> x == g[s][c]
            &&& g[s][c].note matches Some(n) ==> {
                &&& x == (Cell { note: x.note, ..g[s][c] })
                &&& 0 <= n + by <= 127 ==> x.note == Some((n + by) as u8)
                &&& n + by < 0 ==> x.note == Some(0u8)
                &&& n + by > 127 ==> x.note == Some(127u8)
            }
        }),
{
}

/// A new phrase is empty and comes last, and it is the one that is shown.
/// Deleting a phrase takes that one out and leaves the others in order.
pub proof fn law_phrases_are_added_and_deleted(e: EditorView, i: int)
    requires
        editor::valid(e),
        e.song.phrases.len() < usize::MAX,
        0 <= i < e.song.phrases.len(),
    ensures
        ({
            let a = command::phrase_added(e).song;
            let d = command::phrase_deleted(e).song;
            let n = e.song.phrases.len();
            let at = e.song.current_phrase;
            &&& a.phrases.len() == n + 1 && a.phrases[i] == e.song.phrases[i]
            &&& a.current_phrase == n && a.phrases[n as int] == song::empty_grid()
            &&& n > 1 ==> d.phrases.len() == n - 1 && d.current_phrase < n - 1
            &&& n > 1 && i < at ==> d.phrases[i] == e.song.phrases[i]
            &&& n > 1 && i > at ==> d.phrases[i - 1] == e.song.phrases[i]
            &&& n == 1 ==> d.phrases == seq![song::empty_grid()]
        }),
{
}

} // verus!
