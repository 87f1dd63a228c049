//! What each key does in each mode.

use vstd::prelude::*;

use crate::audio::LiveEvent;
use crate::editor;
use crate::editor::command;
use crate::editor::complete;
use crate::editor::instrument;
use crate::editor::status;
use crate::editor::status::Status;
use crate::editor::{
    piano_row_note, Editor, EditorView, Mode, Operator, Pending, Request,
};
use crate::song;
use crate::song::{Cell, Instrument, SongView, CHANNELS, STEPS_PER_PHRASE};
use crate::text;

verus! {

#[derive(Clone, Copy, Debug, PartialEq, Eq, Structural)]
pub enum KeyCode {
    Char(char),
    Up,
    Down,
    Left,
    Right,
    Enter,
    Esc,
    Backspace,
    Tab,
    BackTab,
    F(u8),
    Other,
}

#[derive(Clone, Copy, Debug, PartialEq, Eq, Structural)]
pub struct Key {
    pub code: KeyCode,
    pub ctrl: bool,
}

// ---------------------------------------------------------------- counts

/// A key that goes on a count: any digit, but a zero only after another.
pub open spec fn counts(e: EditorView, k: Key) -> bool {
    k.code matches KeyCode::Char(c) && text::is_digit(c) && !(c == '0' && e.count == 0)
}

/// The count with one more digit, as far as it goes.
pub open spec fn counted(e: EditorView, c: char) -> EditorView {
    let n = e.count * 10 + (c as u32 - '0' as u32);
    EditorView {
        count: if n > u32::MAX {
            u32::MAX
        } else {
            n as u32
        },
        ..e
    }
}

impl Editor {
    fn is_count(&self, k: Key) -> (r: bool)
        ensures
            r == counts(self@, k),
    {
        match k.code {
            KeyCode::Char(c) => '0' <= c && c <= '9' && !(c == '0' && self.count == 0),
            _ => false,
        }
    }

    fn add_digit(&mut self, k: Key)
        requires
            editor::valid(old(self)@),
            counts(old(self)@, k),
        ensures
            final(self)@ == counted(old(self)@, k.code->Char_0),
            editor::valid(final(self)@),
    {
        if let KeyCode::Char(c) = k.code {
            let n: u64 = self.count as u64 * 10 + (c as u32 - '0' as u32) as u64;
            self.count = if n > u32::MAX as u64 {
                u32::MAX
            } else {
                n as u32
            };
        }
        assert(self@ =~= counted(old(self)@, k.code->Char_0));
    }
}

// ---------------------------------------------------------------- shared actions

/// A request left for the file system.
pub open spec fn requested(e: EditorView, r: Request, path: Seq<char>) -> EditorView {
    EditorView { request: r, path, ..e }
}

pub open spec fn saving(e: EditorView, quit: bool) -> EditorView {
    match e.file {
        None => editor::said(e, Status::NoFileName),
        Some(p) => requested(e, Request::Write { quit }, p),
    }
}

/// The instrument of the note under the cursor, or the one selected before.
pub open spec fn shown_instrument(e: EditorView) -> u8 {
    let x = editor::under(e);
    if x.note is None {
        e.selected_instr
    } else if x.instr > 15 {
        15
    } else {
        x.instr
    }
}

pub open spec fn instrument_entered(e: EditorView) -> EditorView {
    editor::said(
        EditorView { selected_instr: shown_instrument(e), mode: Mode::Instrument, ..e },
        Status::InstrumentShown { i: shown_instrument(e) },
    )
}

pub open spec fn live_entered(e: EditorView) -> EditorView {
    editor::said(
        EditorView {
            mode: Mode::Live,
            last_notes: Seq::new(CHANNELS as nat, |i: int| None),
            ..e
        },
        Status::Live { ch: e.cursor_ch, instr: e.selected_instr, octave: e.insert_octave },
    )
}

/// The names of the first `k` channels that are armed, with blanks between.
pub open spec fn armed_text(rec: Seq<bool>, k: nat) -> Seq<char>
    decreases k,
{
    if k == 0 {
        Seq::empty()
    } else {
        let t = armed_text(rec, (k - 1) as nat);
        if !rec[k - 1] {
            t
        } else if t.len() == 0 {
            status::channel_label(k - 1)
        } else {
            t + " "@ + status::channel_label(k - 1)
        }
    }
}

pub open spec fn arm_toggled(e: EditorView) -> EditorView {
    let ch = e.cursor_ch;
    let rec = e.recording.update(ch as int, !e.recording[ch as int]);
    let t = armed_text(rec, CHANNELS as nat);
    let a = EditorView { recording: rec, ..e };
    if t.len() == 0 {
        editor::said(a, Status::RecNone { ch })
    } else if rec[ch as int] {
        editor::said_of(a, Status::RecOn { ch }, t)
    } else {
        editor::said_of(a, Status::RecOff { ch }, t)
    }
}

pub open spec fn phrase_shown(e: EditorView, i: usize) -> EditorView {
    editor::said(
        EditorView { song: SongView { current_phrase: i, ..e.song }, cursor_step: 0, ..e },
        Status::PhraseShown { i },
    )
}

/// The phrase after the current one, round and round.
pub open spec fn next_shown(e: EditorView) -> EditorView {
    if e.song.phrases.len() <= 1 {
        editor::said(e, Status::OnlyOnePhrase)
    } else if e.song.current_phrase + 1 == e.song.phrases.len() {
        phrase_shown(e, 0)
    } else {
        phrase_shown(e, (e.song.current_phrase + 1) as usize)
    }
}

pub open spec fn prev_shown(e: EditorView) -> EditorView {
    if e.song.phrases.len() <= 1 {
        editor::said(e, Status::OnlyOnePhrase)
    } else if e.song.current_phrase == 0 {
        phrase_shown(e, (e.song.phrases.len() - 1) as usize)
    } else {
        phrase_shown(e, (e.song.current_phrase - 1) as usize)
    }
}

/// Going on to the next phrase and back shows the same phrase again.
pub proof fn law_phrases_go_round(e: EditorView)
    requires
        editor::valid(e),
        e.song.phrases.len() <= usize::MAX,
    ensures
        prev_shown(next_shown(e)).song == e.song,
        next_shown(prev_shown(e)).song == e.song,
{
}

impl Editor {
    fn set_pending(&mut self, p: Pending)
        requires
            editor::valid(old(self)@),
        ensures
            final(self)@ == (EditorView { pending: p, ..old(self)@ }),
            editor::valid(final(self)@),
    {
        self.pending = p;
        assert(self@ =~= (EditorView { pending: p, ..old(self)@ }));
    }

    fn open_command(&mut self)
        requires
            editor::valid(old(self)@),
        ensures
            final(self)@ == (EditorView {
                mode: Mode::Command,
                command: Seq::empty(),
                ..old(self)@
            }),
            editor::valid(final(self)@),
    {
        self.mode = Mode::Command;
        self.command = Vec::new();
        assert(self@ =~= (EditorView {
            mode: Mode::Command,
            command: Seq::empty(),
            ..old(self)@
        }));
    }

    pub fn set_mode(&mut self, m: Mode)
        requires
            editor::valid(old(self)@),
        ensures
            final(self)@ == (EditorView { mode: m, ..old(self)@ }),
            editor::valid(final(self)@),
    {
        self.mode = m;
        assert(self@ =~= (EditorView { mode: m, ..old(self)@ }));
    }

    fn toggle_play(&mut self)
        requires
            editor::valid(old(self)@),
        ensures
            final(self)@ == (EditorView { playing: !old(self)@.playing, ..old(self)@ }),
            editor::valid(final(self)@),
    {
        self.playing = !self.playing;
        assert(self@ =~= (EditorView { playing: !old(self)@.playing, ..old(self)@ }));
    }

    pub fn quit_now(&mut self)
        requires
            editor::valid(old(self)@),
        ensures
            final(self)@ == (EditorView { quit: true, ..old(self)@ }),
            editor::valid(final(self)@),
    {
        self.quit = true;
        assert(self@ =~= (EditorView { quit: true, ..old(self)@ }));
    }

    fn push_live(&mut self, ev: LiveEvent)
        requires
            editor::valid(old(self)@),
        ensures
            final(self)@ == (EditorView { live: old(self)@.live.push(ev), ..old(self)@ }),
            editor::valid(final(self)@),
    {
        self.live.push(ev);
        assert(self@ =~= (EditorView { live: old(self)@.live.push(ev), ..old(self)@ }));
    }

    fn set_last_note(&mut self, ch: usize, note: Option<u8>)
        requires
            editor::valid(old(self)@),
            ch < CHANNELS,
        ensures
            final(self)@ == (EditorView {
                last_notes: old(self)@.last_notes.update(ch as int, note),
                ..old(self)@
            }),
            editor::valid(final(self)@),
    {
        self.last_notes[ch] = note;
        assert(self.last_notes@ =~= old(self)@.last_notes.update(ch as int, note));
        assert(self@ =~= (EditorView {
            last_notes: old(self)@.last_notes.update(ch as int, note),
            ..old(self)@
        }));
    }

    pub fn leave_request(&mut self, r: Request, path: Vec<char>)
        requires
            editor::valid(old(self)@),
        ensures
            final(self)@ == requested(old(self)@, r, path@),
            editor::valid(final(self)@),
    {
        self.request = r;
        self.path = path;
        assert(self@ =~= requested(old(self)@, r, path@));
    }

    pub fn save(&mut self, quit: bool)
        requires
            editor::valid(old(self)@),
        ensures
            final(self)@ == saving(old(self)@, quit),
            editor::valid(final(self)@),
    {
        let p: Option<Vec<char>> = match &self.file {
            None => None,
            Some(p) => Some(text::copy_of(p.as_slice())),
        };
        match p {
            None => self.say(Status::NoFileName),
            Some(p) => self.leave_request(Request::Write { quit }, p),
        }
    }

    pub fn enter_instrument_mode(&mut self)
        requires
            editor::valid(old(self)@),
        ensures
            final(self)@ == instrument_entered(old(self)@),
            editor::valid(final(self)@),
    {
        let x: Cell = self.cell_under();
        if x.note.is_some() {
            self.selected_instr = if x.instr > 15 {
                15
            } else {
                x.instr
            };
        }
        self.mode = Mode::Instrument;
        let i: u8 = self.selected_instr;
        self.say(Status::InstrumentShown { i });
        assert(self@ =~= instrument_entered(old(self)@));
    }

    pub fn enter_live_mode(&mut self)
        requires
            editor::valid(old(self)@),
        ensures
            final(self)@ == live_entered(old(self)@),
            editor::valid(final(self)@),
    {
        self.mode = Mode::Live;
        self.last_notes = [None, None, None, None, None];
        assert(self.last_notes@ =~= Seq::new(CHANNELS as nat, |i: int| None));
        let (ch, instr, octave): (usize, u8, u8) = (
            self.cursor_ch,
            self.selected_instr,
            self.insert_octave,
        );
        self.say(Status::Live { ch, instr, octave });
        assert(self@ =~= live_entered(old(self)@));
    }

    /// The names of the channels that are armed.
    pub fn armed_names(&self) -> (t: Vec<char>)
        ensures
            t@ == armed_text(self@.recording, CHANNELS as nat),
    {
        let mut t: Vec<char> = Vec::new();
        for k in 0..CHANNELS
            invariant
                t@ == armed_text(self.recording@, k as nat),
        {
            if self.recording[k] {
                if t.len() > 0 {
                    text::put_str(&mut t, " ");
                }
                text::put_str(&mut t, status::channel_name(k));
            }
            assert(t@ =~= armed_text(self.recording@, (k + 1) as nat));
        }
        t
    }

    pub fn toggle_record_arm(&mut self)
        requires
            editor::valid(old(self)@),
        ensures
            final(self)@ == arm_toggled(old(self)@),
            editor::valid(final(self)@),
    {
        let ch: usize = self.cursor_ch;
        let on: bool = !self.recording[ch];
        self.recording[ch] = on;
        assert(self.recording@ =~= old(self)@.recording.update(ch as int, on));
        let t: Vec<char> = self.armed_names();
        if t.len() == 0 {
            self.say(Status::RecNone { ch });
        } else if on {
            self.say_of(Status::RecOn { ch }, t);
        } else {
            self.say_of(Status::RecOff { ch }, t);
        }
        assert(self@ =~= arm_toggled(old(self)@));
    }

    pub fn show_phrase(&mut self, i: usize)
        requires
            editor::valid(old(self)@),
            i < old(self)@.song.phrases.len(),
        ensures
            final(self)@ == phrase_shown(old(self)@, i),
            editor::valid(final(self)@),
    {
        self.song.current_phrase = i;
        self.cursor_step = 0;
        self.say(Status::PhraseShown { i });
        assert(self@ =~= phrase_shown(old(self)@, i));
    }

    pub fn next_phrase(&mut self)
        requires
            editor::valid(old(self)@),
        ensures
            final(self)@ == next_shown(old(self)@),
            editor::valid(final(self)@),
    {
        let n: usize = self.song.phrases.len();
        assert(n == self@.song.phrases.len());
        if n <= 1 {
            self.say(Status::OnlyOnePhrase);
        } else if self.song.current_phrase + 1 == n {
            self.show_phrase(0);
        } else {
            let i: usize = self.song.current_phrase + 1;
            self.show_phrase(i);
        }
    }

    pub fn prev_phrase(&mut self)
        requires
            editor::valid(old(self)@),
        ensures
            final(self)@ == prev_shown(old(self)@),
            editor::valid(final(self)@),
    {
        let n: usize = self.song.phrases.len();
        assert(n == self@.song.phrases.len());
        if n <= 1 {
            self.say(Status::OnlyOnePhrase);
        } else if self.song.current_phrase == 0 {
            self.show_phrase(n - 1);
        } else {
            let i: usize = self.song.current_phrase - 1;
            self.show_phrase(i);
        }
    }
}

// ---------------------------------------------------------------- motions

/// The motions that several modes share.
pub open spec fn motion(e: EditorView, k: Key) -> Option<EditorView> {
    if k.code == KeyCode::Char('j') || k.code == KeyCode::Down {
        Some(editor::moved_down(editor::uncounted(e), editor::times(e)))
    } else if k.code == KeyCode::Char('k') || k.code == KeyCode::Up {
        Some(editor::moved_up(editor::uncounted(e), editor::times(e)))
    } else if k.code == KeyCode::Char('h') || k.code == KeyCode::Left {
        Some(editor::moved_left(editor::uncounted(e), editor::times(e)))
    } else if k.code == KeyCode::Char('l') || k.code == KeyCode::Right {
        Some(editor::moved_right(editor::uncounted(e), editor::times(e)))
    } else if k.code == KeyCode::Char('w') {
        Some(editor::moved_down(e, 4))
    } else if k.code == KeyCode::Char('b') {
        Some(editor::moved_up(e, 4))
    } else if k.code == KeyCode::Char('0') {
        Some(EditorView { cursor_ch: 0, count: 0, ..e })
    } else if k.code == KeyCode::Char('$') {
        Some(EditorView { cursor_ch: (CHANNELS - 1) as usize, ..e })
    } else if k.code == KeyCode::Char('g') {
        Some(EditorView { cursor_step: 0, ..e })
    } else if k.code == KeyCode::Char('G') {
        Some(EditorView { cursor_step: (STEPS_PER_PHRASE - 1) as usize, ..e })
    } else {
        None
    }
}

impl Editor {
    fn try_motion(&mut self, k: Key) -> (done: bool)
        requires
            editor::valid(old(self)@),
        ensures
            done == (motion(old(self)@, k) is Some),
            final(self)@ == (match motion(old(self)@, k) {
                Some(e) => e,
                None => old(self)@,
            }),
            editor::valid(final(self)@),
    {
        let ghost e = self@;
        if k.code == KeyCode::Char('j') || k.code == KeyCode::Down {
            let n: u32 = self.take_count();
            self.motion_j(n);
        } else if k.code == KeyCode::Char('k') || k.code == KeyCode::Up {
            let n: u32 = self.take_count();
            self.motion_k(n);
        } else if k.code == KeyCode::Char('h') || k.code == KeyCode::Left {
            let n: u32 = self.take_count();
            self.motion_h(n);
        } else if k.code == KeyCode::Char('l') || k.code == KeyCode::Right {
            let n: u32 = self.take_count();
            self.motion_l(n);
        } else if k.code == KeyCode::Char('w') {
            self.motion_j(4);
        } else if k.code == KeyCode::Char('b') {
            self.motion_k(4);
        } else if k.code == KeyCode::Char('0') {
            self.cursor_ch = 0;
            self.count = 0;
            assert(self@ =~= motion(e, k)->0);
        } else if k.code == KeyCode::Char('$') {
            self.cursor_ch = CHANNELS - 1;
            assert(self@ =~= motion(e, k)->0);
        } else if k.code == KeyCode::Char('g') {
            self.cursor_step = 0;
            assert(self@ =~= motion(e, k)->0);
        } else if k.code == KeyCode::Char('G') {
            self.cursor_step = STEPS_PER_PHRASE - 1;
            assert(self@ =~= motion(e, k)->0);
        } else {
            return false;
        }
        true
    }
}

// ---------------------------------------------------------------- visual, instrument, help

/// Back to normal mode, with nothing said.
pub open spec fn at_rest(e: EditorView) -> EditorView {
    editor::said(EditorView { mode: Mode::Normal, ..e }, Status::Blank)
}

pub open spec fn visual_key(e: EditorView, k: Key) -> EditorView {
    if k.code == KeyCode::Esc || k.code == KeyCode::Char('v') {
        at_rest(EditorView { anchor: None, linewise: false, count: 0, ..e })
    } else if k.code == KeyCode::Char('V') {
        editor::said(
            EditorView { linewise: !e.linewise, ..e },
            if e.linewise {
                Status::Visual
            } else {
                Status::VisualLine
            },
        )
    } else if counts(e, k) {
        counted(e, k.code->Char_0)
    } else if motion(e, k) is Some {
        motion(e, k)->0
    } else if k.code == KeyCode::Char('d') || k.code == KeyCode::Char('x') {
        editor::selection_operated(e, Operator::Delete)
    } else if k.code == KeyCode::Char('y') {
        editor::selection_operated(e, Operator::Yank)
    } else if k.code == KeyCode::Char('c') {
        editor::selection_operated(e, Operator::Change)
    } else {
        e
    }
}

/// The selected instrument with the chosen parameter moved.
pub open spec fn tuned(e: EditorView, delta: i32) -> EditorView {
    let i = e.selected_instr as int;
    EditorView {
        song: SongView {
            instruments: e.song.instruments.update(
                i,
                instrument::adjusted(e.song.instruments[i], e.instr_param as int, delta),
            ),
            ..e.song
        },
        ..editor::kept(e)
    }
}

pub open spec fn instrument_key(e: EditorView, k: Key) -> EditorView {
    if k.code == KeyCode::Esc || k.code == KeyCode::Char('q') {
        at_rest(e)
    } else if k.code == KeyCode::Char('j') || k.code == KeyCode::Down {
        EditorView { instr_param: ((e.instr_param + 1) % 6) as usize, ..e }
    } else if k.code == KeyCode::Char('k') || k.code == KeyCode::Up {
        EditorView { instr_param: ((e.instr_param + 5) % 6) as usize, ..e }
    } else if k.code == KeyCode::Char('h') || k.code == KeyCode::Left || k.code == KeyCode::Char(
        '-',
    ) {
        tuned(e, (-1) as i32)
    } else if k.code == KeyCode::Char('l') || k.code == KeyCode::Right || k.code == KeyCode::Char(
        '+',
    ) || k.code == KeyCode::Char('=') {
        tuned(e, 1)
    } else if k.code == KeyCode::Char('[') {
        EditorView {
            selected_instr: if e.selected_instr == 0 {
                0
            } else {
                (e.selected_instr - 1) as u8
            },
            ..e
        }
    } else if k.code == KeyCode::Char(']') {
        EditorView {
            selected_instr: if e.selected_instr >= 15 {
                15
            } else {
                (e.selected_instr + 1) as u8
            },
            ..e
        }
    } else {
        e
    }
}

pub open spec fn help_key(e: EditorView, k: Key) -> EditorView {
    if k.code == KeyCode::Esc || k.code == KeyCode::Char('q') || k.code == KeyCode::Char('?')
        || k.code == KeyCode::F(1) {
        at_rest(e)
    } else {
        e
    }
}

impl Editor {
    fn rest(&mut self)
        requires
            editor::valid(old(self)@),
        ensures
            final(self)@ == at_rest(old(self)@),
            editor::valid(final(self)@),
    {
        self.mode = Mode::Normal;
        self.say(Status::Blank);
        assert(self@ =~= at_rest(old(self)@));
    }

    fn handle_visual(&mut self, k: Key)
        requires
            editor::valid(old(self)@),
        ensures
            final(self)@ == visual_key(old(self)@, k),
            editor::valid(final(self)@),
    {
        let ghost e = self@;
        if k.code == KeyCode::Esc || k.code == KeyCode::Char('v') {
            self.anchor = None;
            self.linewise = false;
            self.count = 0;
            self.rest();
            assert(self@ =~= visual_key(e, k));
        } else if k.code == KeyCode::Char('V') {
            self.linewise = !self.linewise;
            if self.linewise {
                self.say(Status::VisualLine);
            } else {
                self.say(Status::Visual);
            }
            assert(self@ =~= visual_key(e, k));
        } else if self.is_count(k) {
            self.add_digit(k);
        } else if self.try_motion(k) {
        } else if k.code == KeyCode::Char('d') || k.code == KeyCode::Char('x') {
            self.op_visual(Operator::Delete);
        } else if k.code == KeyCode::Char('y') {
            self.op_visual(Operator::Yank);
        } else if k.code == KeyCode::Char('c') {
            self.op_visual(Operator::Change);
        }
    }

    fn tune(&mut self, delta: i32)
        requires
            editor::valid(old(self)@),
        ensures
            final(self)@ == tuned(old(self)@, delta),
            editor::valid(final(self)@),
    {
        let ghost e = self@;
        self.snapshot();
        let i: usize = self.selected_instr as usize;
        let mut inst: Instrument = self.song.instruments[i];
        inst.adjust(self.instr_param, delta);
        self.song.instruments[i] = inst;
        assert(self.song.instruments@ =~= tuned(e, delta).song.instruments);
        assert(self@ =~= tuned(e, delta));
    }

    fn handle_instrument(&mut self, k: Key)
        requires
            editor::valid(old(self)@),
        ensures
            final(self)@ == instrument_key(old(self)@, k),
            editor::valid(final(self)@),
    {
        let ghost e = self@;
        if k.code == KeyCode::Esc || k.code == KeyCode::Char('q') {
            self.rest();
        } else if k.code == KeyCode::Char('j') || k.code == KeyCode::Down {
            self.instr_param = (self.instr_param + 1) % 6;
            assert(self@ =~= instrument_key(e, k));
        } else if k.code == KeyCode::Char('k') || k.code == KeyCode::Up {
            self.instr_param = (self.instr_param + 5) % 6;
            assert(self@ =~= instrument_key(e, k));
        } else if k.code == KeyCode::Char('h') || k.code == KeyCode::Left || k.code
            == KeyCode::Char('-') {
            self.tune(-1);
        } else if k.code == KeyCode::Char('l') || k.code == KeyCode::Right || k.code
            == KeyCode::Char('+') || k.code == KeyCode::Char('=') {
            self.tune(1);
        } else if k.code == KeyCode::Char('[') {
            if self.selected_instr > 0 {
                self.selected_instr = self.selected_instr - 1;
            }
            assert(self@ =~= instrument_key(e, k));
        } else if k.code == KeyCode::Char(']') {
            if self.selected_instr < 15 {
                self.selected_instr = self.selected_instr + 1;
            }
            assert(self@ =~= instrument_key(e, k));
        }
    }

    fn handle_help(&mut self, k: Key)
        requires
            editor::valid(old(self)@),
        ensures
            final(self)@ == help_key(old(self)@, k),
            editor::valid(final(self)@),
    {
        if k.code == KeyCode::Esc || k.code == KeyCode::Char('q') || k.code == KeyCode::Char('?')
            || k.code == KeyCode::F(1) {
            self.rest();
        }
    }
}

// ---------------------------------------------------------------- normal

/// The operator's own key.
pub open spec fn op_key(op: Operator) -> char {
    match op {
        Operator::Delete => 'd',
        Operator::Yank => 'y',
        Operator::Change => 'c',
    }
}

pub open spec fn op_pending_key(e: EditorView, op: Operator, k: Key) -> EditorView {
    if counts(e, k) {
        counted(e, k.code->Char_0)
    } else {
        let p = EditorView { pending: Pending::Nothing, ..e };
        if k.code == KeyCode::Char(op_key(op)) {
            editor::rows_operated(editor::uncounted(p), op, editor::times(e))
        } else if k.code == KeyCode::Char('a') {
            EditorView { pending: Pending::OpScope(op, 'a'), ..e }
        } else if k.code == KeyCode::Char('i') {
            EditorView { pending: Pending::OpScope(op, 'i'), ..e }
        } else if k.code == KeyCode::Esc {
            editor::said(editor::uncounted(p), Status::Blank)
        } else {
            editor::said(editor::uncounted(p), Status::Cancelled)
        }
    }
}

pub open spec fn scope_pending_key(e: EditorView, op: Operator, k: Key) -> EditorView {
    let p = editor::uncounted(EditorView { pending: Pending::Nothing, ..e });
    if k.code == KeyCode::Char('b') {
        editor::object_operated(p, op, 'b', editor::times(e))
    } else if k.code == KeyCode::Char('p') {
        editor::object_operated(p, op, 'p', editor::times(e))
    } else if k.code == KeyCode::Char('v') {
        editor::object_operated(p, op, 'v', editor::times(e))
    } else {
        editor::said(p, Status::UnknownObject)
    }
}

/// The note under the cursor replaced by a key of the piano row.
pub open spec fn replace_key(e: EditorView, k: Key) -> EditorView {
    let p = EditorView { pending: Pending::Nothing, ..e };
    match k.code {
        KeyCode::Esc => editor::said(p, Status::Cancelled),
        KeyCode::Char(c) => match editor::piano_note(c, e.insert_octave) {
            Some(note) => editor::said(
                editor::with_cell(
                    editor::kept(p),
                    e.cursor_step as int,
                    e.cursor_ch as int,
                    editor::renoted(editor::under(e), note, e.selected_instr),
                ),
                Status::Replaced { s: e.cursor_step, c: e.cursor_ch as u8, note },
            ),
            None => editor::said(p, Status::NotPiano { key: c }),
        },
        _ => editor::said(p, Status::ExpectPiano),
    }
}

/// The cells from the cursor down, `n` of them or to the end, deleted one by
/// one.
pub open spec fn deleted_down(e: EditorView, n: nat) -> EditorView
    decreases n,
{
    if n == 0 {
        e
    } else if e.cursor_step + 1 >= STEPS_PER_PHRASE {
        editor::cell_deleted(e)
    } else {
        deleted_down(editor::moved_down(editor::cell_deleted(e), 1), (n - 1) as nat)
    }
}

pub open spec fn visual_entered(e: EditorView, linewise: bool) -> EditorView {
    editor::said(
        EditorView {
            mode: Mode::Visual,
            anchor: Some((e.cursor_step, e.cursor_ch)),
            linewise,
            ..e
        },
        if linewise {
            Status::VisualLine
        } else {
            Status::Visual
        },
    )
}

pub open spec fn escaped(e: EditorView) -> EditorView {
    let p = EditorView { pending: Pending::Nothing, count: 0, ..e };
    if editor::any_armed(e) {
        editor::said(editor::disarmed(p), Status::RecDisarmed)
    } else {
        editor::said(p, Status::Blank)
    }
}

/// The keys of normal mode that change the song.
pub open spec fn edit_key(e: EditorView, k: Key) -> Option<EditorView> {
    if k.code == KeyCode::Char('x') {
        Some(deleted_down(editor::uncounted(e), editor::times(e) as nat))
    } else if k.code == KeyCode::Char('p') {
        Some(editor::pasted(e, true))
    } else if k.code == KeyCode::Char('P') {
        Some(editor::pasted(e, false))
    } else if k.code == KeyCode::Char('.') {
        Some(editor::repeated(e))
    } else if k.code == KeyCode::Char('i') {
        Some(
            editor::said(EditorView { mode: Mode::Insert, ..editor::kept(e) }, Status::Insert),
        )
    } else if k.code == KeyCode::Char('a') {
        Some(
            editor::said(
                EditorView { mode: Mode::Insert, ..editor::moved_down(editor::kept(e), 1) },
                Status::InsertAppend,
            ),
        )
    } else if k.code == KeyCode::Char('u') {
        Some(editor::undone(e))
    } else if k.code == KeyCode::Char('r') && k.ctrl {
        Some(editor::redone(e))
    } else {
        None
    }
}

/// The keys of normal mode that wait for another.
pub open spec fn prefix_key(e: EditorView, k: Key) -> Option<EditorView> {
    if k.code == KeyCode::Char('d') {
        Some(EditorView { pending: Pending::Op(Operator::Delete), ..e })
    } else if k.code == KeyCode::Char('y') {
        Some(EditorView { pending: Pending::Op(Operator::Yank), ..e })
    } else if k.code == KeyCode::Char('c') {
        Some(EditorView { pending: Pending::Op(Operator::Change), ..e })
    } else if k.code == KeyCode::Char('r') && !k.ctrl {
        Some(
            editor::said(EditorView { pending: Pending::Replace, ..e }, Status::ReplacePrompt),
        )
    } else if k.code == KeyCode::Char('Z') {
        Some(EditorView { pending: Pending::Z, ..e })
    } else {
        None
    }
}

/// The other keys of normal mode.
pub open spec fn switch_key(e: EditorView, k: Key) -> EditorView {
    if k.code == KeyCode::Char('v') {
        visual_entered(e, false)
    } else if k.code == KeyCode::Char('V') {
        visual_entered(e, true)
    } else if k.code == KeyCode::Char('{') {
        prev_shown(e)
    } else if k.code == KeyCode::Char('}') {
        next_shown(e)
    } else if k.code == KeyCode::Char(':') {
        EditorView { mode: Mode::Command, command: Seq::empty(), ..e }
    } else if k.code == KeyCode::Char(' ') {
        editor::said(
            EditorView { playing: !e.playing, ..e },
            if e.playing {
                Status::Stopped
            } else {
                Status::Playing
            },
        )
    } else if k.code == KeyCode::Char('q') && k.ctrl {
        EditorView { quit: true, ..e }
    } else if k.code == KeyCode::Char('?') || k.code == KeyCode::F(1) {
        editor::said(EditorView { mode: Mode::Help, ..e }, Status::Help)
    } else if k.code == KeyCode::F(2) {
        instrument_entered(e)
    } else if k.code == KeyCode::Char('K') {
        live_entered(e)
    } else if k.code == KeyCode::Char('R') {
        arm_toggled(e)
    } else if k.code == KeyCode::Esc {
        escaped(e)
    } else {
        e
    }
}

/// A key of normal mode while nothing is pending.
pub open spec fn plain_key(e: EditorView, k: Key) -> EditorView {
    if counts(e, k) {
        counted(e, k.code->Char_0)
    } else if motion(e, k) is Some {
        motion(e, k)->0
    } else if edit_key(e, k) is Some {
        edit_key(e, k)->0
    } else if prefix_key(e, k) is Some {
        prefix_key(e, k)->0
    } else {
        switch_key(e, k)
    }
}

pub open spec fn normal_key(e: EditorView, k: Key) -> EditorView {
    let p = EditorView { pending: Pending::Nothing, ..e };
    match e.pending {
        Pending::Op(op) => op_pending_key(e, op, k),
        Pending::OpScope(op, scope) => scope_pending_key(e, op, k),
        Pending::Z => if k.code == KeyCode::Char('Z') {
            saving(p, true)
        } else if k.code == KeyCode::Char('Q') {
            EditorView { quit: true, ..p }
        } else {
            plain_key(p, k)
        },
        Pending::Replace => replace_key(e, k),
        Pending::Nothing => plain_key(e, k),
    }
}

impl Editor {
    fn handle_pending_op(&mut self, op: Operator, k: Key)
        requires
            editor::valid(old(self)@),
        ensures
            final(self)@ == op_pending_key(old(self)@, op, k),
            editor::valid(final(self)@),
    {
        let own: char = match op {
            Operator::Delete => 'd',
            Operator::Yank => 'y',
            Operator::Change => 'c',
        };
        if self.is_count(k) {
            self.add_digit(k);
        } else if k.code == KeyCode::Char(own) {
            self.set_pending(Pending::Nothing);
            let n: u32 = self.take_count();
            self.op_row(op, n);
        } else if k.code == KeyCode::Char('a') {
            self.set_pending(Pending::OpScope(op, 'a'));
        } else if k.code == KeyCode::Char('i') {
            self.set_pending(Pending::OpScope(op, 'i'));
        } else {
            self.set_pending(Pending::Nothing);
            let n: u32 = self.take_count();
            if k.code == KeyCode::Esc {
                self.say(Status::Blank);
            } else {
                self.say(Status::Cancelled);
            }
        }
    }

    fn handle_pending_op_scope(&mut self, op: Operator, k: Key)
        requires
            editor::valid(old(self)@),
        ensures
            final(self)@ == scope_pending_key(old(self)@, op, k),
            editor::valid(final(self)@),
    {
        let ghost e = self@;
        self.pending = Pending::Nothing;
        let n: u32 = self.take_count();
        assert(self@ =~= editor::uncounted(EditorView { pending: Pending::Nothing, ..e }));
        if k.code == KeyCode::Char('b') {
            self.op_object(op, 'b', n);
        } else if k.code == KeyCode::Char('p') {
            self.op_object(op, 'p', n);
        } else if k.code == KeyCode::Char('v') {
            self.op_object(op, 'v', n);
        } else {
            self.say(Status::UnknownObject);
        }
    }

    fn handle_replace(&mut self, k: Key)
        requires
            editor::valid(old(self)@),
        ensures
            final(self)@ == replace_key(old(self)@, k),
            editor::valid(final(self)@),
    {
        let ghost e = self@;
        self.pending = Pending::Nothing;
        match k.code {
            KeyCode::Esc => self.say(Status::Cancelled),
            KeyCode::Char(c) => match piano_row_note(c, self.insert_octave) {
                Some(note) => {
                    self.snapshot();
                    let x: Cell = self.cell_under();
                    let (s, ch): (usize, usize) = (self.cursor_step, self.cursor_ch);
                    let instr: u8 = self.selected_instr;
                    self.set_cell(
                        s,
                        ch,
                        Cell { note: Some(note), instr, vol: x.vol, fx: x.fx, hold: false },
                    );
                    self.say(Status::Replaced { s, c: ch as u8, note });
                },
                None => self.say(Status::NotPiano { key: c }),
            },
            _ => self.say(Status::ExpectPiano),
        }
        assert(self@ =~= replace_key(e, k));
    }

    fn delete_down(&mut self, n: u32)
        requires
            editor::valid(old(self)@),
        ensures
            final(self)@ == deleted_down(old(self)@, n as nat),
            editor::valid(final(self)@),
    {
        let mut left: u32 = n;
        while left > 0
            invariant
                editor::valid(self@),
                deleted_down(self@, left as nat) == deleted_down(old(self)@, n as nat),
            decreases left,
        {
            let last: bool = self.cursor_step + 1 >= STEPS_PER_PHRASE;
            self.op_delete_cell();
            if last {
                return;
            }
            self.motion_j(1);
            left = left - 1;
        }
    }

    fn enter_visual(&mut self, linewise: bool)
        requires
            editor::valid(old(self)@),
        ensures
            final(self)@ == visual_entered(old(self)@, linewise),
            editor::valid(final(self)@),
    {
        self.mode = Mode::Visual;
        self.anchor = Some((self.cursor_step, self.cursor_ch));
        self.linewise = linewise;
        if linewise {
            self.say(Status::VisualLine);
        } else {
            self.say(Status::Visual);
        }
        assert(self@ =~= visual_entered(old(self)@, linewise));
    }

    fn escape(&mut self)
        requires
            editor::valid(old(self)@),
        ensures
            final(self)@ == escaped(old(self)@),
            editor::valid(final(self)@),
    {
        self.pending = Pending::Nothing;
        self.count = 0;
        if self.any_recording() {
            self.disarm_all();
            self.say(Status::RecDisarmed);
        } else {
            self.say(Status::Blank);
        }
        assert(self@ =~= escaped(old(self)@));
    }

    fn try_edit(&mut self, k: Key) -> (done: bool)
        requires
            editor::valid(old(self)@),
        ensures
            done == (edit_key(old(self)@, k) is Some),
            final(self)@ == (match edit_key(old(self)@, k) {
                Some(e) => e,
                None => old(self)@,
            }),
            editor::valid(final(self)@),
    {
        let ghost e = self@;
        if k.code == KeyCode::Char('x') {
            let n: u32 = self.take_count();
            self.delete_down(n);
        } else if k.code == KeyCode::Char('p') {
            self.paste(true);
        } else if k.code == KeyCode::Char('P') {
            self.paste(false);
        } else if k.code == KeyCode::Char('.') {
            self.replay_last_action();
        } else if k.code == KeyCode::Char('i') {
            self.snapshot();
            self.mode = Mode::Insert;
            self.say(Status::Insert);
            assert(self@ =~= edit_key(e, k)->0);
        } else if k.code == KeyCode::Char('a') {
            self.snapshot();
            self.motion_j(1);
            self.mode = Mode::Insert;
            self.say(Status::InsertAppend);
            assert(self@ =~= edit_key(e, k)->0);
        } else if k.code == KeyCode::Char('u') {
            self.undo_change();
        } else if k.code == KeyCode::Char('r') && k.ctrl {
            self.redo_change();
        } else {
            return false;
        }
        true
    }

    fn try_prefix(&mut self, k: Key) -> (done: bool)
        requires
            editor::valid(old(self)@),
        ensures
            done == (prefix_key(old(self)@, k) is Some),
            final(self)@ == (match prefix_key(old(self)@, k) {
                Some(e) => e,
                None => old(self)@,
            }),
            editor::valid(final(self)@),
    {
        if k.code == KeyCode::Char('d') {
            self.set_pending(Pending::Op(Operator::Delete));
        } else if k.code == KeyCode::Char('y') {
            self.set_pending(Pending::Op(Operator::Yank));
        } else if k.code == KeyCode::Char('c') {
            self.set_pending(Pending::Op(Operator::Change));
        } else if k.code == KeyCode::Char('r') && !k.ctrl {
            self.set_pending(Pending::Replace);
            self.say(Status::ReplacePrompt);
        } else if k.code == KeyCode::Char('Z') {
            self.set_pending(Pending::Z);
        } else {
            return false;
        }
        true
    }

    fn handle_switch(&mut self, k: Key)
        requires
            editor::valid(old(self)@),
        ensures
            final(self)@ == switch_key(old(self)@, k),
            editor::valid(final(self)@),
    {
        if k.code == KeyCode::Char('v') {
            self.enter_visual(false);
        } else if k.code == KeyCode::Char('V') {
            self.enter_visual(true);
        } else if k.code == KeyCode::Char('{') {
            self.prev_phrase();
        } else if k.code == KeyCode::Char('}') {
            self.next_phrase();
        } else if k.code == KeyCode::Char(':') {
            self.open_command();
        } else if k.code == KeyCode::Char(' ') {
            self.toggle_play();
            if self.playing {
                self.say(Status::Playing);
            } else {
                self.say(Status::Stopped);
            }
        } else if k.code == KeyCode::Char('q') && k.ctrl {
            self.quit_now();
        } else if k.code == KeyCode::Char('?') || k.code == KeyCode::F(1) {
            self.set_mode(Mode::Help);
            self.say(Status::Help);
        } else if k.code == KeyCode::F(2) {
            self.enter_instrument_mode();
        } else if k.code == KeyCode::Char('K') {
            self.enter_live_mode();
        } else if k.code == KeyCode::Char('R') {
            self.toggle_record_arm();
        } else if k.code == KeyCode::Esc {
            self.escape();
        }
    }

    fn handle_plain(&mut self, k: Key)
        requires
            editor::valid(old(self)@),
        ensures
            final(self)@ == plain_key(old(self)@, k),
            editor::valid(final(self)@),
    {
        if self.is_count(k) {
            self.add_digit(k);
        } else if self.try_motion(k) {
        } else if self.try_edit(k) {
        } else if self.try_prefix(k) {
        } else {
            self.handle_switch(k);
        }
    }

    fn handle_normal(&mut self, k: Key)
        requires
            editor::valid(old(self)@),
        ensures
            final(self)@ == normal_key(old(self)@, k),
            editor::valid(final(self)@),
    {
        match self.pending {
            Pending::Op(op) => self.handle_pending_op(op, k),
            Pending::OpScope(op, scope) => self.handle_pending_op_scope(op, k),
            Pending::Z => {
                self.set_pending(Pending::Nothing);
                if k.code == KeyCode::Char('Z') {
                    self.save(true);
                } else if k.code == KeyCode::Char('Q') {
                    self.quit_now();
                } else {
                    self.handle_plain(k);
                }
            },
            Pending::Replace => self.handle_replace(k),
            Pending::Nothing => self.handle_plain(k),
        }
    }
}

// ---------------------------------------------------------------- insert

pub open spec fn octave_down(e: EditorView) -> u8 {
    if e.insert_octave == 0 {
        0
    } else {
        (e.insert_octave - 1) as u8
    }
}

pub open spec fn octave_up(e: EditorView) -> u8 {
    if e.insert_octave >= 8 {
        8
    } else {
        (e.insert_octave + 1) as u8
    }
}

pub open spec fn insert_key(e: EditorView, k: Key) -> EditorView {
    match k.code {
        KeyCode::Esc => at_rest(e),
        KeyCode::Down => editor::moved_down(e, 1),
        KeyCode::Up => editor::moved_up(e, 1),
        KeyCode::Left => editor::moved_left(e, 1),
        KeyCode::Right => editor::moved_right(e, 1),
        KeyCode::Char(c) => if c == '<' {
            editor::said(
                EditorView { insert_octave: octave_down(e), ..e },
                Status::Octave { octave: octave_down(e) },
            )
        } else if c == '>' {
            editor::said(
                EditorView { insert_octave: octave_up(e), ..e },
                Status::Octave { octave: octave_up(e) },
            )
        } else {
            match editor::piano_note(c, e.insert_octave) {
                Some(note) => editor::note_inserted(e, note),
                None => e,
            }
        },
        KeyCode::Backspace => {
            let up = editor::moved_up(e, 1);
            editor::with_cell(up, up.cursor_step as int, up.cursor_ch as int, song::empty_cell())
        },
        _ => e,
    }
}

impl Editor {
    fn shift_octave(&mut self, up: bool) -> (octave: u8)
        requires
            editor::valid(old(self)@),
        ensures
            octave == (if up {
                octave_up(old(self)@)
            } else {
                octave_down(old(self)@)
            }),
            final(self)@ == (EditorView { insert_octave: octave, ..old(self)@ }),
            editor::valid(final(self)@),
    {
        if up {
            if self.insert_octave < 8 {
                self.insert_octave = self.insert_octave + 1;
            }
        } else if self.insert_octave > 0 {
            self.insert_octave = self.insert_octave - 1;
        }
        assert(self@ =~= (EditorView { insert_octave: self.insert_octave, ..old(self)@ }));
        self.insert_octave
    }

    fn handle_insert(&mut self, k: Key)
        requires
            editor::valid(old(self)@),
        ensures
            final(self)@ == insert_key(old(self)@, k),
            editor::valid(final(self)@),
    {
        match k.code {
            KeyCode::Esc => self.rest(),
            KeyCode::Down => self.motion_j(1),
            KeyCode::Up => self.motion_k(1),
            KeyCode::Left => self.motion_h(1),
            KeyCode::Right => self.motion_l(1),
            KeyCode::Char(c) => {
                if c == '<' || c == '>' {
                    let octave: u8 = self.shift_octave(c == '>');
                    self.say(Status::Octave { octave });
                } else if let Some(note) = piano_row_note(c, self.insert_octave) {
                    self.insert_note(note);
                }
            },
            KeyCode::Backspace => {
                self.motion_k(1);
                let (s, c): (usize, usize) = (self.cursor_step, self.cursor_ch);
                self.set_cell(s, c, Cell::default());
            },
            _ => {},
        }
    }
}

// ---------------------------------------------------------------- live

/// How long a note played by hand lasts, in milliseconds: a terminal does not
/// tell when a key is let go.
pub const HOLD_MS: u32 = 180;

pub open spec fn live_note(e: EditorView, note: u8) -> EditorView {
    let ch = e.cursor_ch;
    let p = EditorView {
        live: e.live.push(LiveEvent::GateOff { ch: ch as u8 }).push(
            LiveEvent::GateOn {
                ch: ch as u8,
                note,
                instr: e.selected_instr,
                vel: 15,
                hold_ms: Some(HOLD_MS),
            },
        ),
        last_notes: e.last_notes.update(ch as int, Some(note)),
        ..e
    };
    if e.recording[ch as int] {
        editor::said(
            editor::note_recorded(p, ch as int, note),
            Status::Recorded {
                ch,
                note,
                step: editor::record_step(e),
                instr: e.selected_instr,
            },
        )
    } else {
        editor::said(p, Status::LiveNote { ch, note, instr: e.selected_instr })
    }
}

/// The live channel changed.
pub open spec fn live_on(e: EditorView, ch: usize) -> EditorView {
    editor::said(
        EditorView { cursor_ch: ch, ..e },
        Status::LiveChannel { ch, instr: e.selected_instr, octave: e.insert_octave },
    )
}

/// Playing toggled while notes are played by hand.
pub open spec fn live_toggled(e: EditorView) -> EditorView {
    editor::said(
        EditorView { playing: !e.playing, ..e },
        if e.playing {
            Status::LiveStopped {
                ch: e.cursor_ch,
                instr: e.selected_instr,
                octave: e.insert_octave,
            }
        } else {
            Status::LivePlaying {
                ch: e.cursor_ch,
                instr: e.selected_instr,
                octave: e.insert_octave,
            }
        },
    )
}

pub open spec fn live_off(e: EditorView) -> EditorView {
    editor::said(
        EditorView {
            live: e.live.push(LiveEvent::GateOff { ch: e.cursor_ch as u8 }),
            last_notes: e.last_notes.update(e.cursor_ch as int, None),
            ..e
        },
        Status::LiveOff { ch: e.cursor_ch },
    )
}

pub open spec fn live_char(e: EditorView, c: char) -> EditorView {
    if c == ' ' {
        live_toggled(e)
    } else if c == '<' {
        editor::said(
            EditorView { insert_octave: octave_down(e), ..e },
            Status::LiveOctave { octave: octave_down(e) },
        )
    } else if c == '>' {
        editor::said(
            EditorView { insert_octave: octave_up(e), ..e },
            Status::LiveOctave { octave: octave_up(e) },
        )
    } else if c == 'R' {
        arm_toggled(e)
    } else {
        match editor::piano_note(c, e.insert_octave) {
            Some(note) => live_note(e, note),
            None => e,
        }
    }
}

pub open spec fn live_key(e: EditorView, k: Key) -> EditorView {
    match k.code {
        KeyCode::Esc => at_rest(EditorView { live: e.live.push(LiveEvent::AllOff), ..e }),
        KeyCode::Tab | KeyCode::Right => live_on(e, ((e.cursor_ch + 1) % 5) as usize),
        KeyCode::BackTab | KeyCode::Left => live_on(e, ((e.cursor_ch + 4) % 5) as usize),
        KeyCode::Char(c) => live_char(e, c),
        KeyCode::Backspace => live_off(e),
        _ => e,
    }
}

impl Editor {
    fn play_live(&mut self, note: u8)
        requires
            editor::valid(old(self)@),
        ensures
            final(self)@ == live_note(old(self)@, note),
            editor::valid(final(self)@),
    {
        let ch: usize = self.cursor_ch;
        let instr: u8 = self.selected_instr;
        self.push_live(LiveEvent::GateOff { ch: ch as u8 });
        self.push_live(
            LiveEvent::GateOn { ch: ch as u8, note, instr, vel: 15, hold_ms: Some(HOLD_MS) },
        );
        self.set_last_note(ch, Some(note));
        if self.recording[ch] {
            let step: usize = self.record_note(ch, note);
            self.say(Status::Recorded { ch, note, step, instr });
        } else {
            self.say(Status::LiveNote { ch, note, instr });
        }
    }

    fn switch_live(&mut self, ch: usize)
        requires
            editor::valid(old(self)@),
            ch < CHANNELS,
        ensures
            final(self)@ == live_on(old(self)@, ch),
            editor::valid(final(self)@),
    {
        self.cursor_ch = ch;
        let (instr, octave): (u8, u8) = (self.selected_instr, self.insert_octave);
        self.say(Status::LiveChannel { ch, instr, octave });
        assert(self@ =~= live_on(old(self)@, ch));
    }

    fn toggle_live(&mut self)
        requires
            editor::valid(old(self)@),
        ensures
            final(self)@ == live_toggled(old(self)@),
            editor::valid(final(self)@),
    {
        self.toggle_play();
        let (ch, instr, octave): (usize, u8, u8) = (
            self.cursor_ch,
            self.selected_instr,
            self.insert_octave,
        );
        if self.playing {
            self.say(Status::LivePlaying { ch, instr, octave });
        } else {
            self.say(Status::LiveStopped { ch, instr, octave });
        }
    }

    fn release_live(&mut self)
        requires
            editor::valid(old(self)@),
        ensures
            final(self)@ == live_off(old(self)@),
            editor::valid(final(self)@),
    {
        let ch: usize = self.cursor_ch;
        self.push_live(LiveEvent::GateOff { ch: ch as u8 });
        self.set_last_note(ch, None);
        self.say(Status::LiveOff { ch });
    }

    fn handle_live_char(&mut self, c: char)
        requires
            editor::valid(old(self)@),
        ensures
            final(self)@ == live_char(old(self)@, c),
            editor::valid(final(self)@),
    {
        if c == ' ' {
            self.toggle_live();
        } else if c == '<' || c == '>' {
            let octave: u8 = self.shift_octave(c == '>');
            self.say(Status::LiveOctave { octave });
        } else if c == 'R' {
            self.toggle_record_arm();
        } else if let Some(note) = piano_row_note(c, self.insert_octave) {
            self.play_live(note);
        }
    }

    fn handle_live(&mut self, k: Key)
        requires
            editor::valid(old(self)@),
        ensures
            final(self)@ == live_key(old(self)@, k),
            editor::valid(final(self)@),
    {
        match k.code {
            KeyCode::Esc => {
                self.push_live(LiveEvent::AllOff);
                self.rest();
            },
            KeyCode::Tab | KeyCode::Right => {
                let ch: usize = (self.cursor_ch + 1) % 5;
                self.switch_live(ch);
            },
            KeyCode::BackTab | KeyCode::Left => {
                let ch: usize = (self.cursor_ch + 4) % 5;
                self.switch_live(ch);
            },
            KeyCode::Char(c) => self.handle_live_char(c),
            KeyCode::Backspace => self.release_live(),
            _ => {},
        }
    }
}

// ---------------------------------------------------------------- command

/// A command line run; the editor is back in normal mode unless the command
/// went elsewhere.
pub open spec fn entered(e: EditorView) -> EditorView {
    let x = command::executed(e, text::trim(e.command));
    EditorView {
        command: Seq::empty(),
        mode: if x.mode == Mode::Command {
            Mode::Normal
        } else {
            x.mode
        },
        ..x
    }
}

pub open spec fn command_key(e: EditorView, k: Key) -> EditorView {
    match k.code {
        KeyCode::Esc => EditorView { mode: Mode::Normal, command: Seq::empty(), ..e },
        KeyCode::Enter => entered(e),
        KeyCode::Backspace => EditorView {
            command: if e.command.len() == 0 {
                e.command
            } else {
                e.command.drop_last()
            },
            ..e
        },
        KeyCode::Tab => complete::tabbed(e),
        KeyCode::Char(c) => EditorView { command: e.command.push(c), ..e },
        _ => e,
    }
}

/// What a key does. The first one only closes the title screen, and stops
/// the demo.
pub open spec fn key_pressed(e: EditorView, k: Key) -> EditorView {
    if e.show_splash {
        EditorView { show_splash: false, playing: false, ..e }
    } else {
        match e.mode {
            Mode::Normal => normal_key(e, k),
            Mode::Insert => insert_key(e, k),
            Mode::Live => live_key(e, k),
            Mode::Command => command_key(e, k),
            Mode::Visual => visual_key(e, k),
            Mode::Help => help_key(e, k),
            Mode::Instrument => instrument_key(e, k),
        }
    }
}

impl Editor {
    fn enter_command(&mut self)
        requires
            editor::valid(old(self)@),
        ensures
            final(self)@ == entered(old(self)@),
            editor::valid(final(self)@),
    {
        let ghost e = self@;
        let line: Vec<char> = text::copy_of(self.command.as_slice());
        self.execute_command(text::trimmed(line.as_slice()));
        self.command = Vec::new();
        if self.mode == Mode::Command {
            self.mode = Mode::Normal;
        }
        assert(self@ =~= entered(e));
    }

    fn handle_command(&mut self, k: Key)
        requires
            editor::valid(old(self)@),
        ensures
            final(self)@ == command_key(old(self)@, k),
            editor::valid(final(self)@),
    {
        let ghost e = self@;
        match k.code {
            KeyCode::Esc => {
                self.mode = Mode::Normal;
                self.command = Vec::new();
                assert(self@ =~= command_key(e, k));
            },
            KeyCode::Enter => self.enter_command(),
            KeyCode::Backspace => {
                let last: Option<char> = self.command.pop();
                assert(self@ =~= command_key(e, k));
            },
            KeyCode::Tab => self.complete_path(),
            KeyCode::Char(c) => {
                self.command.push(c);
                assert(self@ =~= command_key(e, k));
            },
            _ => {},
        }
    }

    /// Handles one key.
    pub fn handle_key(&mut self, k: Key)
        requires
            editor::valid(old(self)@),
        ensures
            final(self)@ == key_pressed(old(self)@, k),
            editor::valid(final(self)@),
    {
        let ghost e = self@;
        if self.show_splash {
            self.show_splash = false;
            self.playing = false;
            assert(self@ =~= key_pressed(e, k));
            return;
        }
        match self.mode {
            Mode::Normal => self.handle_normal(k),
            Mode::Insert => self.handle_insert(k),
            Mode::Live => self.handle_live(k),
            Mode::Command => self.handle_command(k),
            Mode::Visual => self.handle_visual(k),
            Mode::Help => self.handle_help(k),
            Mode::Instrument => self.handle_instrument(k),
        }
    }

    /// Hands out the notes played by hand since the last time.
    pub fn take_live(&mut self) -> (r: Vec<LiveEvent>)
        requires
            editor::valid(old(self)@),
        ensures
            r@ == old(self)@.live,
            final(self)@ == (EditorView { live: Seq::empty(), ..old(self)@ }),
            editor::valid(final(self)@),
    {
        let mut r: Vec<LiveEvent> = Vec::new();
        std::mem::swap(&mut self.live, &mut r);
        assert(self@ =~= (EditorView { live: Seq::empty(), ..old(self)@ }));
        r
    }

    /// Follows the playhead.
    pub fn follow(&mut self, step: usize)
        requires
            editor::valid(old(self)@),
            step < STEPS_PER_PHRASE,
        ensures
            final(self)@ == (EditorView { play_step: step, ..old(self)@ }),
            editor::valid(final(self)@),
    {
        self.play_step = step;
        assert(self@ =~= (EditorView { play_step: step, ..old(self)@ }));
    }
}

// ---------------------------------------------------------------- key sequences

/// A motion or a yank leaves the song as it is.
pub proof fn law_motions_keep_the_song(e: EditorView, k: Key)
    requires
        motion(e, k) is Some,
    ensures
        (motion(e, k)->0).song == e.song,
        (motion(e, k)->0).undo == e.undo,
{
}

/// `yy` changes no song, and `dd` can be undone.
pub proof fn law_row_operators(e: EditorView, op: Operator, n: u32)
    requires
        editor::valid(e),
    ensures
        op == Operator::Yank ==> editor::rows_operated(e, op, n).song == e.song,
        op != Operator::Yank ==> editor::undone(editor::rows_operated(e, op, n)).song == e.song,
{
    let y = editor::yanked(e, editor::rows_area(e, if n < 1 {
        1
    } else {
        n
    }));
    assert(editor::kept(y).undo.last() == e.song);
}

/// Keys played by hand on a channel that is not armed leave the song as it
/// is.
pub proof fn law_live_keys_keep_the_song(e: EditorView, k: Key)
    requires
        editor::valid(e),
        !e.recording[e.cursor_ch as int],
    ensures
        live_key(e, k).song == e.song,
        live_key(e, k).dirty == e.dirty,
{
}

/// A character key.
pub open spec fn typed(c: char) -> Key {
    Key { code: KeyCode::Char(c), ctrl: false }
}

proof fn lemma_digit(e: EditorView, d: char)
    requires
        e.count == 0,
        e.pending == Pending::Nothing,
        '1' <= d <= '9',
    ensures
        normal_key(e, typed(d)) == (EditorView { count: (d as u32 - '0' as u32) as u32, ..e }),
{
    assert(counts(e, typed(d)));
    assert(normal_key(e, typed(d)) == counted(e, d));
}

proof fn lemma_operator(e: EditorView)
    requires
        e.pending == Pending::Nothing,
    ensures
        normal_key(e, typed('d')) == (EditorView {
            pending: Pending::Op(Operator::Delete),
            ..e
        }),
{
    assert(!counts(e, typed('d')));
    assert(motion(e, typed('d')) is None);
    assert(edit_key(e, typed('d')) is None);
    assert(normal_key(e, typed('d')) == prefix_key(e, typed('d'))->0);
}

proof fn lemma_doubled(e: EditorView)
    requires
        e.pending == Pending::Op(Operator::Delete),
    ensures
        normal_key(e, typed('d')) == editor::rows_operated(
            EditorView { pending: Pending::Nothing, count: 0, ..e },
            Operator::Delete,
            editor::times(e),
        ),
{
    assert(!counts(e, typed('d')));
    assert(normal_key(e, typed('d')) == op_pending_key(e, Operator::Delete, typed('d')));
}

/// The count typed before an operator reaches it: a digit and `dd` delete as
/// many rows.
pub proof fn law_counts_reach_operators(e: EditorView, d: char)
    requires
        editor::valid(e),
        e.count == 0,
        e.pending == Pending::Nothing,
        '1' <= d <= '9',
    ensures
        normal_key(normal_key(normal_key(e, typed(d)), typed('d')), typed('d'))
            == editor::rows_operated(e, Operator::Delete, (d as u32 - '0' as u32) as u32),
{
    lemma_digit(e, d);
    let a = normal_key(e, typed(d));
    lemma_operator(a);
    let b = normal_key(a, typed('d'));
    lemma_doubled(b);
    assert(EditorView { pending: Pending::Nothing, count: 0, ..b } == e);
}

} // verus!
