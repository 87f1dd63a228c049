//! The editor: what each key does to the song and to the editor itself.
//!
//! Keys come in one at a time. Files are read and written elsewhere: a
//! command that needs one leaves a request, and what came of it is handed
//! back.

use vstd::prelude::*;

use crate::audio::LiveEvent;
use crate::editor::status::Status;
use crate::song;
use crate::song::{Cell, Phrase, Song, SongView, CHANNELS, STEPS_PER_PHRASE};

pub mod behaviour;
pub mod command;
pub mod complete;
pub mod draw;
pub mod instrument;
pub mod keys;
pub mod status;

verus! {

// ---------------------------------------------------------------- state

#[derive(Clone, Copy, Debug, PartialEq, Eq, Structural)]
pub enum Mode {
    Normal,
    Insert,
    Visual,
    Command,
    Help,
    Instrument,
    /// Keys play notes rather than write them.
    Live,
}

/// What an operator does with the cells it covers.
#[derive(Clone, Copy, Debug, PartialEq, Eq, Structural)]
pub enum Operator {
    Delete,
    Yank,
    Change,
}

/// Keys of a sequence that is not finished.
#[derive(Clone, Copy, Debug, PartialEq, Eq, Structural)]
pub enum Pending {
    Nothing,
    Z,
    Op(Operator),
    OpScope(Operator, char),
    Replace,
}

/// What `.` repeats.
#[derive(Clone, Copy, Debug, PartialEq, Eq, Structural)]
pub enum LastAction {
    DeleteCell,
    DeleteRow { count: u32 },
    DeleteBar { count: u32 },
    DeletePhrase,
    DeleteChannel,
    Paste { after: bool },
}

#[derive(Clone, Copy, Debug, PartialEq, Eq, Structural)]
pub enum Theme {
    Nes,
    Phosphor,
}

/// What the editor asks of the file system.
#[derive(Clone, Copy, Debug, PartialEq, Eq, Structural)]
pub enum Request {
    Nothing,
    /// Write the song to the path, and quit if that succeeds and is asked for.
    Write { quit: bool },
    Open,
    /// List the directory at the path.
    List,
}

/// How many changes can be undone.
pub const UNDO_LIMIT: usize = 200;

#[derive(Debug)]
pub struct Editor {
    pub song: Song,
    pub mode: Mode,
    pub cursor_step: usize,
    pub cursor_ch: usize,
    pub pending: Pending,
    /// The count typed before a key; 0 for none.
    pub count: u32,
    pub command: Vec<char>,
    pub status: Status,
    /// The word that the status quotes.
    pub word: Vec<char>,
    pub playing: bool,
    pub play_step: usize,
    pub selected_instr: u8,
    pub insert_octave: u8,
    pub instr_param: usize,
    pub show_splash: bool,
    pub register: Vec<Vec<Cell>>,
    pub last_action: Option<LastAction>,
    /// Where a selection began.
    pub anchor: Option<(usize, usize)>,
    pub linewise: bool,
    pub file: Option<Vec<char>>,
    pub gen_seed: u64,
    pub undo: Vec<Song>,
    pub redo: Vec<Song>,
    pub theme: Theme,
    pub dirty: bool,
    pub live: Vec<LiveEvent>,
    pub last_notes: [Option<u8>; CHANNELS],
    pub recording: [bool; CHANNELS],
    pub quit: bool,
    pub request: Request,
    /// The path of the request.
    pub path: Vec<char>,
}

#[verifier::ext_equal]
pub struct EditorView {
    pub song: SongView,
    pub mode: Mode,
    pub cursor_step: usize,
    pub cursor_ch: usize,
    pub pending: Pending,
    pub count: u32,
    pub command: Seq<char>,
    pub status: Status,
    pub word: Seq<char>,
    pub playing: bool,
    pub play_step: usize,
    pub selected_instr: u8,
    pub insert_octave: u8,
    pub instr_param: usize,
    pub show_splash: bool,
    pub register: Seq<Seq<Cell>>,
    pub last_action: Option<LastAction>,
    pub anchor: Option<(usize, usize)>,
    pub linewise: bool,
    pub file: Option<Seq<char>>,
    pub gen_seed: u64,
    pub undo: Seq<SongView>,
    pub redo: Seq<SongView>,
    pub theme: Theme,
    pub dirty: bool,
    pub live: Seq<LiveEvent>,
    pub last_notes: Seq<Option<u8>>,
    pub recording: Seq<bool>,
    pub quit: bool,
    pub request: Request,
    pub path: Seq<char>,
}

pub open spec fn register_view(v: Seq<Vec<Cell>>) -> Seq<Seq<Cell>> {
    v.map_values(|r: Vec<Cell>| r@)
}

pub open spec fn song_views(v: Seq<Song>) -> Seq<SongView> {
    v.map_values(|s: Song| s@)
}

pub open spec fn path_view(p: Option<Vec<char>>) -> Option<Seq<char>> {
    match p {
        Some(t) => Some(t@),
        None => None,
    }
}

impl View for Editor {
    type V = EditorView;

    open spec fn view(&self) -> EditorView {
        EditorView {
            song: self.song@,
            mode: self.mode,
            cursor_step: self.cursor_step,
            cursor_ch: self.cursor_ch,
            pending: self.pending,
            count: self.count,
            command: self.command@,
            status: self.status,
            word: self.word@,
            playing: self.playing,
            play_step: self.play_step,
            selected_instr: self.selected_instr,
            insert_octave: self.insert_octave,
            instr_param: self.instr_param,
            show_splash: self.show_splash,
            register: register_view(self.register@),
            last_action: self.last_action,
            anchor: self.anchor,
            linewise: self.linewise,
            file: path_view(self.file),
            gen_seed: self.gen_seed,
            undo: song_views(self.undo@),
            redo: song_views(self.redo@),
            theme: self.theme,
            dirty: self.dirty,
            live: self.live@,
            last_notes: self.last_notes@,
            recording: self.recording@,
            quit: self.quit,
            request: self.request,
            path: self.path@,
        }
    }
}

/// A song whose current phrase exists.
pub open spec fn is_open(s: SongView) -> bool {
    s.current_phrase < s.phrases.len()
}

/// Cursors and choices within their bounds, and songs that can be edited.
pub open spec fn valid(e: EditorView) -> bool {
    &&& is_open(e.song)
    &&& e.cursor_step < STEPS_PER_PHRASE
    &&& e.cursor_ch < CHANNELS
    &&& e.play_step < STEPS_PER_PHRASE
    &&& e.selected_instr < 16
    &&& e.insert_octave <= 8
    &&& e.instr_param < 6
    &&& e.anchor is Some ==> (e.anchor->0).0 < STEPS_PER_PHRASE && (e.anchor->0).1 < CHANNELS
    &&& forall|i: int| 0 <= i < e.undo.len() ==> is_open(#[trigger] e.undo[i])
    &&& forall|i: int| 0 <= i < e.redo.len() ==> is_open(#[trigger] e.redo[i])
}

/// The editor as the program starts: with the demo, playing.
pub open spec fn started() -> EditorView {
    EditorView {
        song: song::demo_song(),
        mode: Mode::Normal,
        cursor_step: 0,
        cursor_ch: 0,
        pending: Pending::Nothing,
        count: 0,
        command: Seq::empty(),
        status: Status::Demo,
        word: Seq::empty(),
        playing: true,
        play_step: 0,
        selected_instr: 0,
        insert_octave: 4,
        instr_param: 0,
        show_splash: true,
        register: Seq::empty(),
        last_action: None,
        anchor: None,
        linewise: false,
        file: None,
        gen_seed: 1,
        undo: Seq::empty(),
        redo: Seq::empty(),
        theme: Theme::Nes,
        dirty: false,
        live: Seq::empty(),
        last_notes: Seq::new(CHANNELS as nat, |i: int| None),
        recording: Seq::new(CHANNELS as nat, |i: int| false),
        quit: false,
        request: Request::Nothing,
        path: Seq::empty(),
    }
}

impl Editor {
    pub fn new() -> (r: Editor)
        ensures
            r@ == started(),
            valid(r@),
    {
        let last_notes: [Option<u8>; CHANNELS] = [None, None, None, None, None];
        let recording: [bool; CHANNELS] = [false, false, false, false, false];
        assert(last_notes@ =~= started().last_notes);
        assert(recording@ =~= started().recording);
        let r: Editor = Editor {
            song: Song::demo(),
            mode: Mode::Normal,
            cursor_step: 0,
            cursor_ch: 0,
            pending: Pending::Nothing,
            count: 0,
            command: Vec::new(),
            status: Status::Demo,
            word: Vec::new(),
            playing: true,
            play_step: 0,
            selected_instr: 0,
            insert_octave: 4,
            instr_param: 0,
            show_splash: true,
            register: Vec::new(),
            last_action: None,
            anchor: None,
            linewise: false,
            file: None,
            gen_seed: 1,
            undo: Vec::new(),
            redo: Vec::new(),
            theme: Theme::Nes,
            dirty: false,
            live: Vec::new(),
            last_notes,
            recording,
            quit: false,
            request: Request::Nothing,
            path: Vec::new(),
        };
        assert(r@ =~= started());
        r
    }
}

// ---------------------------------------------------------------- messages

pub open spec fn said(e: EditorView, s: Status) -> EditorView {
    EditorView { status: s, word: Seq::empty(), ..e }
}

pub open spec fn said_of(e: EditorView, s: Status, word: Seq<char>) -> EditorView {
    EditorView { status: s, word, ..e }
}

impl Editor {
    pub fn say(&mut self, s: Status)
        ensures
            final(self)@ == said(old(self)@, s),
    {
        self.status = s;
        self.word = Vec::new();
        assert(self@ =~= said(old(self)@, s));
    }

    pub fn say_of(&mut self, s: Status, word: Vec<char>)
        ensures
            final(self)@ == said_of(old(self)@, s, word@),
    {
        self.status = s;
        self.word = word;
        assert(self@ =~= said_of(old(self)@, s, word@));
    }
}

// ---------------------------------------------------------------- the phrase

pub open spec fn grid(e: EditorView) -> Seq<Seq<Cell>> {
    e.song.phrases[e.song.current_phrase as int]
}

pub open spec fn with_grid(e: EditorView, g: Seq<Seq<Cell>>) -> EditorView {
    EditorView {
        song: SongView {
            phrases: e.song.phrases.update(e.song.current_phrase as int, g),
            ..e.song
        },
        ..e
    }
}

/// The cell under the cursor.
pub open spec fn under(e: EditorView) -> Cell {
    grid(e)[e.cursor_step as int][e.cursor_ch as int]
}

pub open spec fn with_cell(e: EditorView, s: int, c: int, x: Cell) -> EditorView {
    with_grid(e, song::put_cell(grid(e), s, c, x))
}

impl Editor {
    pub fn phrase(&self) -> (r: Phrase)
        requires
            valid(self@),
        ensures
            r@ == grid(self@),
    {
        assert(self@.song.phrases.len() == self.song.phrases@.len());
        let r: Phrase = self.song.phrases[self.song.current_phrase];
        assert(r@ == self@.song.phrases[self.song.current_phrase as int]);
        r
    }

    pub fn cell_under(&self) -> (r: Cell)
        requires
            valid(self@),
        ensures
            r == under(self@),
    {
        self.phrase().at(self.cursor_step, self.cursor_ch)
    }

    pub fn set_phrase(&mut self, p: Phrase)
        requires
            valid(old(self)@),
        ensures
            final(self)@ == with_grid(old(self)@, p@),
            valid(final(self)@),
    {
        let ghost before = self@;
        assert(before.song.phrases.len() == self.song.phrases@.len());
        let i: usize = self.song.current_phrase;
        self.song.phrases.set(i, p);
        assert(song::grids(self.song.phrases@) =~= before.song.phrases.update(i as int, p@));
        assert(self@ =~= with_grid(before, p@));
    }

    pub fn set_cell(&mut self, s: usize, c: usize, x: Cell)
        requires
            valid(old(self)@),
            s < STEPS_PER_PHRASE,
            c < CHANNELS,
        ensures
            final(self)@ == with_cell(old(self)@, s as int, c as int, x),
            valid(final(self)@),
    {
        let mut p: Phrase = self.phrase();
        p.put(s, c, x);
        self.set_phrase(p);
    }
}

// ---------------------------------------------------------------- undo

/// The song put away before a change. What was undone cannot be redone after
/// it, and the oldest of too many is forgotten.
pub open spec fn kept(e: EditorView) -> EditorView {
    let older = if e.undo.len() == UNDO_LIMIT {
        e.undo.skip(1)
    } else {
        e.undo
    };
    EditorView { undo: older.push(e.song), redo: Seq::empty(), dirty: true, ..e }
}

/// A song whose current phrase exists again.
pub open spec fn clamped(s: SongView) -> SongView {
    if s.current_phrase < s.phrases.len() || s.phrases.len() == 0 {
        s
    } else {
        SongView { current_phrase: (s.phrases.len() - 1) as usize, ..s }
    }
}

pub open spec fn undone(e: EditorView) -> EditorView {
    if e.undo.len() == 0 {
        said(e, Status::Oldest)
    } else {
        said(
            EditorView {
                song: clamped(e.undo.last()),
                undo: e.undo.drop_last(),
                redo: e.redo.push(e.song),
                ..e
            },
            Status::Undone { left: (e.undo.len() - 1) as usize },
        )
    }
}

pub open spec fn redone(e: EditorView) -> EditorView {
    if e.redo.len() == 0 {
        said(e, Status::Newest)
    } else {
        said(
            EditorView {
                song: clamped(e.redo.last()),
                redo: e.redo.drop_last(),
                undo: e.undo.push(e.song),
                ..e
            },
            Status::Redone { left: (e.redo.len() - 1) as usize },
        )
    }
}

/// Undoing a change brings back the song that was there before it, whatever
/// the change was.
pub proof fn law_undo_takes_back(e: EditorView, changed: SongView)
    requires
        valid(e),
    ensures
        undone(EditorView { song: changed, ..kept(e) }).song == e.song,
{
    let older = if e.undo.len() == UNDO_LIMIT {
        e.undo.skip(1)
    } else {
        e.undo
    };
    assert(older.push(e.song).last() == e.song);
}

/// Redoing brings back what undoing took away, and the changes that can be
/// undone are the same as before both.
pub proof fn law_redo_reverses_undo(e: EditorView)
    requires
        valid(e),
        e.undo.len() > 0,
    ensures
        redone(undone(e)).song == e.song,
        redone(undone(e)).undo == e.undo,
        redone(undone(e)).redo == e.redo,
{
    assert(e.undo.drop_last().push(e.undo.last()) =~= e.undo);
    assert(e.redo.push(e.song).drop_last() =~= e.redo);
}

/// No more than the limit can be undone.
pub proof fn law_history_is_bounded(e: EditorView)
    requires
        e.undo.len() <= UNDO_LIMIT,
    ensures
        kept(e).undo.len() <= UNDO_LIMIT,
{
}

impl Editor {
    pub fn snapshot(&mut self)
        requires
            valid(old(self)@),
        ensures
            final(self)@ == kept(old(self)@),
            valid(final(self)@),
    {
        let ghost before = self@;
        assert(before.undo.len() == self.undo@.len());
        if self.undo.len() == UNDO_LIMIT {
            let ghost was = self.undo@;
            let oldest: Song = self.undo.remove(0);
            assert(self.undo@ =~= was.skip(1));
            assert(song_views(self.undo@) =~= before.undo.skip(1));
        }
        let copy: Song = song::copy_song(&self.song);
        let ghost older = self.undo@;
        self.undo.push(copy);
        assert(song_views(self.undo@) =~= song_views(older).push(before.song));
        self.redo = Vec::new();
        assert(song_views(self.redo@) =~= Seq::<SongView>::empty());
        self.dirty = true;
        assert(self@ =~= kept(before));
    }

    fn clamp_song(&mut self)
        requires
            old(self).song.phrases@.len() > 0,
        ensures
            final(self)@ == (EditorView { song: clamped(old(self)@.song), ..old(self)@ }),
    {
        assert(self@.song.phrases.len() == self.song.phrases@.len());
        if self.song.current_phrase >= self.song.phrases.len() {
            self.song.current_phrase = self.song.phrases.len() - 1;
        }
        assert(self@ =~= (EditorView { song: clamped(old(self)@.song), ..old(self)@ }));
    }

    pub fn undo_change(&mut self)
        requires
            valid(old(self)@),
        ensures
            final(self)@ == undone(old(self)@),
            valid(final(self)@),
    {
        let ghost before = self@;
        assert(before.undo.len() == self.undo@.len());
        if self.undo.len() == 0 {
            self.say(Status::Oldest);
            return;
        }
        let ghost was = self.undo@;
        let ghost later = self.redo@;
        let mut prev: Song = self.undo.pop().unwrap();
        assert(before.undo.last() == prev@);
        std::mem::swap(&mut self.song, &mut prev);
        self.redo.push(prev);
        assert(song_views(self.undo@) =~= before.undo.drop_last());
        assert(song_views(self.redo@) =~= before.redo.push(before.song));
        let left: usize = self.undo.len();
        assert(self@.song.phrases.len() == self.song.phrases@.len());
        self.clamp_song();
        self.say(Status::Undone { left });
        assert(self@ =~= undone(before));
    }

    pub fn redo_change(&mut self)
        requires
            valid(old(self)@),
        ensures
            final(self)@ == redone(old(self)@),
            valid(final(self)@),
    {
        let ghost before = self@;
        assert(before.redo.len() == self.redo@.len());
        if self.redo.len() == 0 {
            self.say(Status::Newest);
            return;
        }
        let ghost was = self.redo@;
        let mut next: Song = self.redo.pop().unwrap();
        assert(before.redo.last() == next@);
        std::mem::swap(&mut self.song, &mut next);
        self.undo.push(next);
        assert(song_views(self.redo@) =~= before.redo.drop_last());
        assert(song_views(self.undo@) =~= before.undo.push(before.song));
        let left: usize = self.redo.len();
        assert(self@.song.phrases.len() == self.song.phrases@.len());
        self.clamp_song();
        self.say(Status::Redone { left });
        assert(self@ =~= redone(before));
    }

    /// Forgets the last change that was put away.
    pub fn forget_last(&mut self)
        requires
            valid(old(self)@),
            old(self)@.undo.len() > 0,
        ensures
            final(self)@ == (EditorView { undo: old(self)@.undo.drop_last(), ..old(self)@ }),
            valid(final(self)@),
    {
        let ghost before = self@;
        assert(before.undo.len() == self.undo@.len());
        let last: Option<Song> = self.undo.pop();
        assert(song_views(self.undo@) =~= before.undo.drop_last());
        assert(self@ =~= (EditorView { undo: before.undo.drop_last(), ..before }));
    }
}

// ---------------------------------------------------------------- motions

pub open spec fn moved_down(e: EditorView, n: u32) -> EditorView {
    EditorView {
        cursor_step: if e.cursor_step + n > 15 {
            15
        } else {
            (e.cursor_step + n) as usize
        },
        ..e
    }
}

pub open spec fn moved_up(e: EditorView, n: u32) -> EditorView {
    EditorView {
        cursor_step: if e.cursor_step < n {
            0
        } else {
            (e.cursor_step - n) as usize
        },
        ..e
    }
}

pub open spec fn moved_left(e: EditorView, n: u32) -> EditorView {
    EditorView {
        cursor_ch: if e.cursor_ch < n {
            0
        } else {
            (e.cursor_ch - n) as usize
        },
        ..e
    }
}

pub open spec fn moved_right(e: EditorView, n: u32) -> EditorView {
    EditorView {
        cursor_ch: if e.cursor_ch + n > 4 {
            4
        } else {
            (e.cursor_ch + n) as usize
        },
        ..e
    }
}

/// The count typed, or one.
pub open spec fn times(e: EditorView) -> u32 {
    if e.count == 0 {
        1
    } else {
        e.count
    }
}

pub open spec fn uncounted(e: EditorView) -> EditorView {
    EditorView { count: 0, ..e }
}

impl Editor {
    pub fn motion_j(&mut self, n: u32)
        requires
            valid(old(self)@),
        ensures
            final(self)@ == moved_down(old(self)@, n),
            valid(final(self)@),
    {
        let to: u64 = self.cursor_step as u64 + n as u64;
        self.cursor_step = if to > 15 {
            15
        } else {
            to as usize
        };
        assert(self@ =~= moved_down(old(self)@, n));
    }

    pub fn motion_k(&mut self, n: u32)
        requires
            valid(old(self)@),
        ensures
            final(self)@ == moved_up(old(self)@, n),
            valid(final(self)@),
    {
        self.cursor_step = if (self.cursor_step as u64) < n as u64 {
            0
        } else {
            self.cursor_step - n as usize
        };
        assert(self@ =~= moved_up(old(self)@, n));
    }

    pub fn motion_h(&mut self, n: u32)
        requires
            valid(old(self)@),
        ensures
            final(self)@ == moved_left(old(self)@, n),
            valid(final(self)@),
    {
        self.cursor_ch = if (self.cursor_ch as u64) < n as u64 {
            0
        } else {
            self.cursor_ch - n as usize
        };
        assert(self@ =~= moved_left(old(self)@, n));
    }

    pub fn motion_l(&mut self, n: u32)
        requires
            valid(old(self)@),
        ensures
            final(self)@ == moved_right(old(self)@, n),
            valid(final(self)@),
    {
        let to: u64 = self.cursor_ch as u64 + n as u64;
        self.cursor_ch = if to > 4 {
            4
        } else {
            to as usize
        };
        assert(self@ =~= moved_right(old(self)@, n));
    }

    pub fn take_count(&mut self) -> (n: u32)
        requires
            valid(old(self)@),
        ensures
            n == times(old(self)@),
            final(self)@ == uncounted(old(self)@),
            valid(final(self)@),
    {
        let n: u32 = if self.count == 0 {
            1
        } else {
            self.count
        };
        self.count = 0;
        assert(self@ =~= uncounted(old(self)@));
        n
    }
}

// ---------------------------------------------------------------- blocks

/// Steps and channels, the last of each excluded.
#[derive(Clone, Copy, Debug, PartialEq, Eq, Structural)]
pub struct Area {
    pub s0: usize,
    pub s1: usize,
    pub c0: usize,
    pub c1: usize,
}

/// An area of the phrase.
pub open spec fn is_area(b: Area) -> bool {
    b.s0 <= b.s1 <= STEPS_PER_PHRASE && b.c0 <= b.c1 <= CHANNELS
}

pub open spec fn covers(b: Area, s: int, c: int) -> bool {
    b.s0 <= s < b.s1 && b.c0 <= c < b.c1
}

pub open spec fn cut_out(g: Seq<Seq<Cell>>, b: Area) -> Seq<Seq<Cell>> {
    Seq::new(
        (b.s1 - b.s0) as nat,
        |i: int| Seq::new((b.c1 - b.c0) as nat, |j: int| g[b.s0 + i][b.c0 + j]),
    )
}

/// A phrase, cell by cell.
pub open spec fn painted(f: spec_fn(int, int) -> Cell) -> Seq<Seq<Cell>> {
    Seq::new(STEPS_PER_PHRASE as nat, |s: int| Seq::new(CHANNELS as nat, |c: int| f(s, c)))
}

/// The phrase with an area empty.
pub open spec fn cleared(g: Seq<Seq<Cell>>, b: Area) -> Seq<Seq<Cell>> {
    painted(
        |s: int, c: int|
            if covers(b, s, c) {
                song::empty_cell()
            } else {
                g[s][c]
            },
    )
}

/// The phrase with a block laid on it, its first cell at a step and channel;
/// what does not fit is left out.
pub open spec fn laid(g: Seq<Seq<Cell>>, r: Seq<Seq<Cell>>, s0: int, c0: int) -> Seq<Seq<Cell>> {
    painted(
        |s: int, c: int|
            if s0 <= s < s0 + r.len() && c0 <= c < c0 + r[s - s0].len() {
                r[s - s0][c - c0]
            } else {
                g[s][c]
            },
    )
}

/// The register as a block read from an area.
pub open spec fn yanked(e: EditorView, b: Area) -> EditorView {
    EditorView { register: cut_out(grid(e), b), ..e }
}

pub proof fn lemma_painted(p: Phrase, f: spec_fn(int, int) -> Cell)
    requires
        forall|s: int, c: int|
            0 <= s < STEPS_PER_PHRASE && 0 <= c < CHANNELS ==> #[trigger] p@[s][c] == f(s, c),
    ensures
        p@ == painted(f),
{
    assert forall|s: int| 0 <= s < STEPS_PER_PHRASE implies #[trigger] p@[s] == painted(f)[s] by {
        assert(p@[s] =~= painted(f)[s]) by {
            assert forall|c: int| 0 <= c < CHANNELS implies p@[s][c] == painted(f)[s][c] by {
                assert(p@[s][c] == f(s, c));
            }
        }
    }
    assert(p@ =~= painted(f));
}

fn clear_area(p: &Phrase, b: Area) -> (r: Phrase)
    requires
        is_area(b),
    ensures
        r@ == cleared(p@, b),
{
    let mut r: Phrase = *p;
    let ghost f = |s: int, c: int|
        if covers(b, s, c) {
            song::empty_cell()
        } else {
            p@[s][c]
        };
    for s in b.s0..b.s1
        invariant
            is_area(b),
            forall|k: int, d: int|
                0 <= k < STEPS_PER_PHRASE && 0 <= d < CHANNELS ==> #[trigger] r@[k][d] == (
                if covers(b, k, d) && k < s {
                    song::empty_cell()
                } else {
                    p@[k][d]
                }),
    {
        for c in b.c0..b.c1
            invariant
                is_area(b),
                b.s0 <= s < b.s1,
                forall|k: int, d: int|
                    0 <= k < STEPS_PER_PHRASE && 0 <= d < CHANNELS ==> #[trigger] r@[k][d] == (
                    if covers(b, k, d) && (k < s || (k == s && d < c)) {
                        song::empty_cell()
                    } else {
                        p@[k][d]
                    }),
        {
            r.put(s, c, Cell::default());
        }
    }
    proof {
        lemma_painted(r, f);
    }
    r
}

fn lay_block(p: &Phrase, block: &Vec<Vec<Cell>>, s0: usize, c0: usize) -> (r: Phrase)
    requires
        s0 <= STEPS_PER_PHRASE,
        c0 < CHANNELS,
    ensures
        r@ == laid(p@, register_view(block@), s0 as int, c0 as int),
{
    let ghost reg = register_view(block@);
    let mut r: Phrase = *p;
    let ghost f = |s: int, c: int|
        if s0 <= s < s0 + reg.len() && c0 <= c < c0 + reg[s - s0].len() {
            reg[s - s0][c - c0]
        } else {
            p@[s][c]
        };
    assert(reg.len() == block@.len());
    for s in s0..STEPS_PER_PHRASE
        invariant
            s0 <= STEPS_PER_PHRASE,
            c0 < CHANNELS,
            reg == register_view(block@),
            reg.len() == block@.len(),
            forall|k: int, d: int|
                0 <= k < STEPS_PER_PHRASE && 0 <= d < CHANNELS ==> #[trigger] r@[k][d] == (if k < s
                    && s0 <= k < s0 + reg.len() && c0 <= d < c0 + reg[k - s0].len() {
                    reg[k - s0][d - c0]
                } else {
                    p@[k][d]
                }),
    {
        if s - s0 < block.len() {
            let i: usize = s - s0;
            assert(reg[i as int] == block@[i as int]@);
            for c in c0..CHANNELS
                invariant
                    s0 <= s < STEPS_PER_PHRASE,
                    c0 < CHANNELS,
                    i == s - s0,
                    i < block@.len(),
                    reg == register_view(block@),
                    reg.len() == block@.len(),
                    reg[i as int] == block@[i as int]@,
                    forall|k: int, d: int|
                        0 <= k < STEPS_PER_PHRASE && 0 <= d < CHANNELS ==> #[trigger] r@[k][d] == (
                        if (k < s || (k == s && d < c)) && s0 <= k < s0 + reg.len() && c0 <= d < c0
                            + reg[k - s0].len() {
                            reg[k - s0][d - c0]
                        } else {
                            p@[k][d]
                        }),
            {
                if c - c0 < block[i].len() {
                    let x: Cell = block[i][c - c0];
                    r.put(s, c, x);
                }
            }
        }
    }
    proof {
        lemma_painted(r, f);
    }
    r
}

impl Editor {
    pub fn yank_area(&mut self, b: Area)
        requires
            valid(old(self)@),
            is_area(b),
        ensures
            final(self)@ == yanked(old(self)@, b),
            valid(final(self)@),
    {
        let ghost before = self@;
        let p: Phrase = self.phrase();
        let mut rows: Vec<Vec<Cell>> = Vec::new();
        for s in b.s0..b.s1
            invariant
                is_area(b),
                p@ == grid(before),
                rows@.len() == s - b.s0,
                forall|i: int|
                    0 <= i < rows@.len() ==> (#[trigger] rows@[i])@ == cut_out(p@, b)[i],
        {
            let mut row: Vec<Cell> = Vec::new();
            for c in b.c0..b.c1
                invariant
                    is_area(b),
                    b.s0 <= s < b.s1,
                    row@.len() == c - b.c0,
                    forall|j: int| 0 <= j < row@.len() ==> #[trigger] row@[j] == p@[s as int][b.c0
                        + j],
            {
                row.push(p.at(s, c));
            }
            assert(row@ =~= cut_out(p@, b)[s - b.s0]);
            rows.push(row);
        }
        self.register = rows;
        assert(register_view(self.register@) =~= cut_out(p@, b));
        assert(self@ =~= yanked(before, b));
    }

    pub fn clear(&mut self, b: Area)
        requires
            valid(old(self)@),
            is_area(b),
        ensures
            final(self)@ == with_grid(old(self)@, cleared(grid(old(self)@), b)),
            valid(final(self)@),
    {
        let p: Phrase = self.phrase();
        let q: Phrase = clear_area(&p, b);
        self.set_phrase(q);
    }
}

// ---------------------------------------------------------------- operators

pub open spec fn cell_deleted(e: EditorView) -> EditorView {
    let k = kept(e);
    said(
        EditorView {
            last_action: Some(LastAction::DeleteCell),
            ..with_cell(k, e.cursor_step as int, e.cursor_ch as int, song::empty_cell())
        },
        Status::CellDeleted { s: e.cursor_step, c: e.cursor_ch as u8 },
    )
}

/// An area put in the register and, unless it is only yanked, emptied. A
/// change goes on with inserting at its first cell.
pub open spec fn operated(
    e: EditorView,
    op: Operator,
    b: Area,
    action: Option<LastAction>,
    deleted: Status,
    yanked_as: Status,
) -> EditorView {
    let y = yanked(e, b);
    match op {
        Operator::Yank => said(y, yanked_as),
        _ => {
            let k = kept(y);
            let d = EditorView {
                last_action: if action is Some {
                    action
                } else {
                    e.last_action
                },
                ..with_grid(k, cleared(grid(k), b))
            };
            if op == Operator::Change {
                said(
                    EditorView {
                        cursor_step: b.s0,
                        cursor_ch: b.c0,
                        mode: Mode::Insert,
                        ..d
                    },
                    Status::InsertChange,
                )
            } else {
                said(d, deleted)
            }
        },
    }
}

pub open spec fn rows_area(e: EditorView, n: u32) -> Area {
    Area {
        s0: e.cursor_step,
        s1: if e.cursor_step + n > 16 {
            16
        } else {
            (e.cursor_step + n) as usize
        },
        c0: 0,
        c1: CHANNELS,
    }
}

/// An operator on whole rows from the cursor on.
pub open spec fn rows_operated(e: EditorView, op: Operator, count: u32) -> EditorView {
    let n = if count < 1 {
        1
    } else {
        count
    };
    let b = rows_area(e, n);
    let rows = (b.s1 - b.s0) as usize;
    operated(
        e,
        op,
        b,
        Some(LastAction::DeleteRow { count: n }),
        if rows == 1 {
            Status::DeletedRow
        } else {
            Status::DeletedRows { n: rows }
        },
        if rows == 1 {
            Status::YankedRow
        } else {
            Status::YankedRows { n: rows }
        },
    )
}

/// Bars from the cursor's on.
pub open spec fn bars_area(e: EditorView, n: u32) -> Area {
    let start = e.cursor_step as int / 4 * 4;
    Area {
        s0: start as usize,
        s1: if start + 4 * n > 16 {
            16
        } else {
            (start + 4 * n) as usize
        },
        c0: 0,
        c1: CHANNELS,
    }
}

/// An operator on an object: bars, the phrase or the channel.
pub open spec fn object_operated(e: EditorView, op: Operator, obj: char, count: u32) -> EditorView {
    let n = if count < 1 {
        1
    } else {
        count
    };
    if obj == 'b' {
        operated(
            e,
            op,
            bars_area(e, n),
            Some(LastAction::DeleteBar { count: n }),
            if n == 1 {
                Status::DeletedBar
            } else {
                Status::DeletedBars { n: n as usize }
            },
            if n == 1 {
                Status::YankedBar
            } else {
                Status::YankedBars { n: n as usize }
            },
        )
    } else if obj == 'p' {
        operated(
            e,
            op,
            Area { s0: 0, s1: STEPS_PER_PHRASE, c0: 0, c1: CHANNELS },
            Some(LastAction::DeletePhrase),
            Status::DeletedPhrase,
            Status::YankedPhrase,
        )
    } else {
        operated(
            e,
            op,
            Area {
                s0: 0,
                s1: STEPS_PER_PHRASE,
                c0: e.cursor_ch,
                c1: (e.cursor_ch + 1) as usize,
            },
            Some(LastAction::DeleteChannel),
            Status::DeletedChannel,
            Status::YankedChannel,
        )
    }
}

/// The rectangle between the anchor and the cursor, over all channels where
/// the selection goes by lines.
pub open spec fn selected_area(e: EditorView) -> Area {
    let (a, c) = e.anchor->0;
    Area {
        s0: if a < e.cursor_step {
            a
        } else {
            e.cursor_step
        },
        s1: if a < e.cursor_step {
            (e.cursor_step + 1) as usize
        } else {
            (a + 1) as usize
        },
        c0: if e.linewise {
            0
        } else if c < e.cursor_ch {
            c
        } else {
            e.cursor_ch
        },
        c1: if e.linewise {
            CHANNELS
        } else if c < e.cursor_ch {
            (e.cursor_ch + 1) as usize
        } else {
            (c + 1) as usize
        },
    }
}

/// An operator on the selection, which then ends with the cursor at its first
/// cell.
pub open spec fn selection_operated(e: EditorView, op: Operator) -> EditorView {
    if e.anchor is None {
        e
    } else {
        let b = selected_area(e);
        let h = (b.s1 - b.s0) as usize;
        let w = (b.c1 - b.c0) as usize;
        let o = operated(
            e,
            op,
            b,
            None,
            Status::DeletedBlock { h, w },
            Status::YankedBlock { h, w },
        );
        EditorView {
            cursor_step: b.s0,
            cursor_ch: b.c0,
            anchor: None,
            linewise: false,
            mode: if op == Operator::Change {
                Mode::Insert
            } else {
                Mode::Normal
            },
            ..o
        }
    }
}

/// Where the register is laid: at the first channel where its rows are whole.
pub open spec fn paste_channel(e: EditorView) -> int {
    if e.register[0].len() == CHANNELS {
        0
    } else {
        e.cursor_ch as int
    }
}

pub open spec fn pasted(e: EditorView, after: bool) -> EditorView {
    if e.register.len() == 0 {
        said(e, Status::RegisterEmpty)
    } else {
        let k = kept(e);
        let start = if after {
            e.cursor_step + 1
        } else {
            e.cursor_step as int
        };
        said(
            EditorView {
                last_action: Some(LastAction::Paste { after }),
                ..with_grid(k, laid(grid(e), e.register, start, paste_channel(e)))
            },
            Status::Pasted { n: e.register.len() as usize },
        )
    }
}

pub open spec fn repeated(e: EditorView) -> EditorView {
    match e.last_action {
        None => said(e, Status::NothingToRepeat),
        Some(LastAction::DeleteCell) => cell_deleted(e),
        Some(LastAction::DeleteRow { count }) => rows_operated(e, Operator::Delete, count),
        Some(LastAction::DeleteBar { count }) => object_operated(e, Operator::Delete, 'b', count),
        Some(LastAction::DeletePhrase) => object_operated(e, Operator::Delete, 'p', 1),
        Some(LastAction::DeleteChannel) => object_operated(e, Operator::Delete, 'v', 1),
        Some(LastAction::Paste { after }) => pasted(e, after),
    }
}

/// Repeating does the same again: deleting a cell, rows or an object, and
/// pasting.
pub proof fn law_repeating_does_it_again(e: EditorView, obj: char, count: u32, after: bool)
    requires
        obj == 'b' || obj == 'p' || obj == 'v',
    ensures
        repeated(cell_deleted(e)) == cell_deleted(cell_deleted(e)),
        ({
            let r = rows_operated(e, Operator::Delete, count);
            repeated(r) == rows_operated(r, Operator::Delete, count)
        }),
        ({
            let r = object_operated(e, Operator::Delete, obj, count);
            repeated(r) == object_operated(r, Operator::Delete, obj, count)
        }),
        e.register.len() > 0 ==> repeated(pasted(e, after)) == pasted(pasted(e, after), after),
{
}

/// Yanking an area and pasting it back where it was leaves the phrase as it
/// was.
pub proof fn law_yank_and_paste_keeps(g: Seq<Seq<Cell>>, b: Area)
    requires
        is_area(b),
        g.len() == STEPS_PER_PHRASE,
        forall|s: int| 0 <= s < STEPS_PER_PHRASE ==> (#[trigger] g[s]).len() == CHANNELS,
    ensures
        laid(g, cut_out(g, b), b.s0 as int, b.c0 as int) == g,
{
    let l = laid(g, cut_out(g, b), b.s0 as int, b.c0 as int);
    assert forall|s: int| 0 <= s < STEPS_PER_PHRASE implies #[trigger] l[s] == g[s] by {
        assert(l[s] =~= g[s]);
    }
    assert(l =~= g);
}

/// What was deleted comes back with a paste at the same place.
pub proof fn law_paste_restores(g: Seq<Seq<Cell>>, b: Area)
    requires
        is_area(b),
        g.len() == STEPS_PER_PHRASE,
        forall|s: int| 0 <= s < STEPS_PER_PHRASE ==> (#[trigger] g[s]).len() == CHANNELS,
    ensures
        laid(cleared(g, b), cut_out(g, b), b.s0 as int, b.c0 as int) == g,
{
    let l = laid(cleared(g, b), cut_out(g, b), b.s0 as int, b.c0 as int);
    assert forall|s: int| 0 <= s < STEPS_PER_PHRASE implies #[trigger] l[s] == g[s] by {
        assert(l[s] =~= g[s]);
    }
    assert(l =~= g);
}

impl Editor {
    pub fn op_delete_cell(&mut self)
        requires
            valid(old(self)@),
        ensures
            final(self)@ == cell_deleted(old(self)@),
            valid(final(self)@),
    {
        self.snapshot();
        let (s, c): (usize, usize) = (self.cursor_step, self.cursor_ch);
        self.set_cell(s, c, Cell::default());
        self.last_action = Some(LastAction::DeleteCell);
        self.say(Status::CellDeleted { s, c: c as u8 });
        assert(self@ =~= cell_deleted(old(self)@));
    }

    fn operate(
        &mut self,
        op: Operator,
        b: Area,
        action: Option<LastAction>,
        deleted: Status,
        yanked_as: Status,
    )
        requires
            valid(old(self)@),
            is_area(b),
            b.s0 < STEPS_PER_PHRASE,
            b.c0 < CHANNELS,
        ensures
            final(self)@ == operated(old(self)@, op, b, action, deleted, yanked_as),
            valid(final(self)@),
    {
        self.yank_area(b);
        if op == Operator::Yank {
            self.say(yanked_as);
            return;
        }
        self.snapshot();
        self.clear(b);
        if action.is_some() {
            self.last_action = action;
        }
        if op == Operator::Change {
            self.cursor_step = b.s0;
            self.cursor_ch = b.c0;
            self.mode = Mode::Insert;
            self.say(Status::InsertChange);
        } else {
            self.say(deleted);
        }
        assert(self@ =~= operated(old(self)@, op, b, action, deleted, yanked_as));
    }

    pub fn op_row(&mut self, op: Operator, count: u32)
        requires
            valid(old(self)@),
        ensures
            final(self)@ == rows_operated(old(self)@, op, count),
            valid(final(self)@),
    {
        let n: u32 = if count < 1 {
            1
        } else {
            count
        };
        let to: u64 = self.cursor_step as u64 + n as u64;
        let b: Area = Area {
            s0: self.cursor_step,
            s1: if to > 16 {
                16
            } else {
                to as usize
            },
            c0: 0,
            c1: CHANNELS,
        };
        let rows: usize = b.s1 - b.s0;
        let deleted: Status = if rows == 1 {
            Status::DeletedRow
        } else {
            Status::DeletedRows { n: rows }
        };
        let yanked_as: Status = if rows == 1 {
            Status::YankedRow
        } else {
            Status::YankedRows { n: rows }
        };
        self.operate(op, b, Some(LastAction::DeleteRow { count: n }), deleted, yanked_as);
    }

    pub fn op_object(&mut self, op: Operator, obj: char, count: u32)
        requires
            valid(old(self)@),
        ensures
            final(self)@ == object_operated(old(self)@, op, obj, count),
            valid(final(self)@),
    {
        let n: u32 = if count < 1 {
            1
        } else {
            count
        };
        if obj == 'b' {
            let start: usize = self.cursor_step / 4 * 4;
            let to: u64 = start as u64 + 4 * n as u64;
            let b: Area = Area {
                s0: start,
                s1: if to > 16 {
                    16
                } else {
                    to as usize
                },
                c0: 0,
                c1: CHANNELS,
            };
            let deleted: Status = if n == 1 {
                Status::DeletedBar
            } else {
                Status::DeletedBars { n: n as usize }
            };
            let yanked_as: Status = if n == 1 {
                Status::YankedBar
            } else {
                Status::YankedBars { n: n as usize }
            };
            self.operate(op, b, Some(LastAction::DeleteBar { count: n }), deleted, yanked_as);
        } else if obj == 'p' {
            self.operate(
                op,
                Area { s0: 0, s1: STEPS_PER_PHRASE, c0: 0, c1: CHANNELS },
                Some(LastAction::DeletePhrase),
                Status::DeletedPhrase,
                Status::YankedPhrase,
            );
        } else {
            let c: usize = self.cursor_ch;
            self.operate(
                op,
                Area { s0: 0, s1: STEPS_PER_PHRASE, c0: c, c1: c + 1 },
                Some(LastAction::DeleteChannel),
                Status::DeletedChannel,
                Status::YankedChannel,
            );
        }
    }

    /// The area selected.
    pub fn selection(&self) -> (b: Area)
        requires
            valid(self@),
            self@.anchor is Some,
        ensures
            b == selected_area(self@),
            is_area(b),
            b.s0 < b.s1,
            b.c0 < b.c1,
    {
        let (a, c): (usize, usize) = self.anchor.unwrap();
        let (s0, s1): (usize, usize) = if a < self.cursor_step {
            (a, self.cursor_step + 1)
        } else {
            (self.cursor_step, a + 1)
        };
        let (c0, c1): (usize, usize) = if self.linewise {
            (0, CHANNELS)
        } else if c < self.cursor_ch {
            (c, self.cursor_ch + 1)
        } else {
            (self.cursor_ch, c + 1)
        };
        Area { s0, s1, c0, c1 }
    }

    #[verifier::spinoff_prover]
    #[verifier::rlimit(40)]
    pub fn op_visual(&mut self, op: Operator)
        requires
            valid(old(self)@),
        ensures
            final(self)@ == selection_operated(old(self)@, op),
            valid(final(self)@),
    {
        if self.anchor.is_some() {
            let b: Area = self.selection();
            let h: usize = b.s1 - b.s0;
            let w: usize = b.c1 - b.c0;
            self.operate(
                op,
                b,
                None,
                Status::DeletedBlock { h, w },
                Status::YankedBlock { h, w },
            );
            self.cursor_step = b.s0;
            self.cursor_ch = b.c0;
            self.anchor = None;
            self.linewise = false;
            self.mode = if op == Operator::Change {
                Mode::Insert
            } else {
                Mode::Normal
            };
            assert(self@ == selection_operated(old(self)@, op));
        }
    }

    pub fn paste(&mut self, after: bool)
        requires
            valid(old(self)@),
        ensures
            final(self)@ == pasted(old(self)@, after),
            valid(final(self)@),
    {
        let ghost before = self@;
        assert(before.register.len() == self.register@.len());
        if self.register.len() == 0 {
            self.say(Status::RegisterEmpty);
            return;
        }
        self.snapshot();
        let start: usize = if after {
            self.cursor_step + 1
        } else {
            self.cursor_step
        };
        assert(before.register[0] == self.register@[0]@);
        let ch: usize = if self.register[0].len() == CHANNELS {
            0
        } else {
            self.cursor_ch
        };
        let p: Phrase = self.phrase();
        let q: Phrase = lay_block(&p, &self.register, start, ch);
        self.set_phrase(q);
        self.last_action = Some(LastAction::Paste { after });
        let n: usize = self.register.len();
        self.say(Status::Pasted { n });
        assert(self@ =~= pasted(before, after));
    }

    pub fn replay_last_action(&mut self)
        requires
            valid(old(self)@),
        ensures
            final(self)@ == repeated(old(self)@),
            valid(final(self)@),
    {
        match self.last_action {
            None => self.say(Status::NothingToRepeat),
            Some(LastAction::DeleteCell) => self.op_delete_cell(),
            Some(LastAction::DeleteRow { count }) => self.op_row(Operator::Delete, count),
            Some(LastAction::DeleteBar { count }) => self.op_object(Operator::Delete, 'b', count),
            Some(LastAction::DeletePhrase) => self.op_object(Operator::Delete, 'p', 1),
            Some(LastAction::DeleteChannel) => self.op_object(Operator::Delete, 'v', 1),
            Some(LastAction::Paste { after }) => self.paste(after),
        }
    }
}

// ---------------------------------------------------------------- notes

/// The semitone of a key of the bottom row, which is laid out like a piano.
pub open spec fn piano_semitone(key: char) -> Option<u8> {
    if key == 'z' {
        Some(0)
    } else if key == 's' {
        Some(1)
    } else if key == 'x' {
        Some(2)
    } else if key == 'd' {
        Some(3)
    } else if key == 'c' {
        Some(4)
    } else if key == 'v' {
        Some(5)
    } else if key == 'g' {
        Some(6)
    } else if key == 'b' {
        Some(7)
    } else if key == 'h' {
        Some(8)
    } else if key == 'n' {
        Some(9)
    } else if key == 'j' {
        Some(10)
    } else if key == 'm' {
        Some(11)
    } else if key == ',' {
        Some(12)
    } else if key == 'l' {
        Some(13)
    } else if key == '.' {
        Some(14)
    } else if key == ';' {
        Some(15)
    } else if key == '/' {
        Some(16)
    } else {
        None
    }
}

pub open spec fn piano_note(key: char, octave: u8) -> Option<u8> {
    match piano_semitone(key) {
        Some(s) => Some((12 * (octave + 1) + s) as u8),
        None => None,
    }
}

fn find_semitone(key: char) -> (r: Option<u8>)
    ensures
        r == piano_semitone(key),
        r is Some ==> r->0 <= 16,
{
    if key == 'z' {
        Some(0)
    } else if key == 's' {
        Some(1)
    } else if key == 'x' {
        Some(2)
    } else if key == 'd' {
        Some(3)
    } else if key == 'c' {
        Some(4)
    } else if key == 'v' {
        Some(5)
    } else if key == 'g' {
        Some(6)
    } else if key == 'b' {
        Some(7)
    } else if key == 'h' {
        Some(8)
    } else if key == 'n' {
        Some(9)
    } else if key == 'j' {
        Some(10)
    } else if key == 'm' {
        Some(11)
    } else if key == ',' {
        Some(12)
    } else if key == 'l' {
        Some(13)
    } else if key == '.' {
        Some(14)
    } else if key == ';' {
        Some(15)
    } else if key == '/' {
        Some(16)
    } else {
        None
    }
}

/// The note of a key of the bottom row.
pub fn piano_row_note(key: char, octave: u8) -> (r: Option<u8>)
    requires
        octave <= 8,
    ensures
        r == piano_note(key, octave),
        r is Some ==> r->0 <= 124,
{
    match find_semitone(key) {
        Some(s) => Some(12 * (octave + 1) + s),
        None => None,
    }
}

/// A cell with another note on another instrument. A hold becomes the note.
pub open spec fn renoted(x: Cell, note: u8, instr: u8) -> Cell {
    Cell { note: Some(note), instr, hold: false, ..x }
}

/// A note written under the cursor, which goes on by the edit step.
pub open spec fn note_inserted(e: EditorView, note: u8) -> EditorView {
    let w = with_cell(
        e,
        e.cursor_step as int,
        e.cursor_ch as int,
        renoted(under(e), note, e.selected_instr),
    );
    let by = if e.song.edit_step < 1 {
        1
    } else {
        e.song.edit_step as int
    };
    EditorView {
        cursor_step: if e.cursor_step + by > 15 {
            15
        } else {
            (e.cursor_step + by) as usize
        },
        ..w
    }
}

/// Where a recorded note goes: under the playhead, or under the cursor while
/// nothing plays.
pub open spec fn record_step(e: EditorView) -> usize {
    if e.playing {
        e.play_step
    } else {
        e.cursor_step
    }
}

pub open spec fn note_recorded(e: EditorView, ch: int, note: u8) -> EditorView {
    let s = record_step(e) as int;
    with_cell(kept(e), s, ch, renoted(grid(e)[s][ch], note, e.selected_instr))
}

pub open spec fn any_armed(e: EditorView) -> bool {
    exists|i: int| 0 <= i < CHANNELS && #[trigger] e.recording[i]
}

pub open spec fn disarmed(e: EditorView) -> EditorView {
    EditorView { recording: Seq::new(CHANNELS as nat, |i: int| false), ..e }
}

impl Editor {
    pub fn insert_note(&mut self, note: u8)
        requires
            valid(old(self)@),
        ensures
            final(self)@ == note_inserted(old(self)@, note),
            valid(final(self)@),
    {
        let x: Cell = self.cell_under();
        let (s, c): (usize, usize) = (self.cursor_step, self.cursor_ch);
        let instr: u8 = self.selected_instr;
        self.set_cell(
            s,
            c,
            Cell { note: Some(note), instr, vol: x.vol, fx: x.fx, hold: false },
        );
        let by: usize = if self.song.edit_step < 1 {
            1
        } else {
            self.song.edit_step
        };
        self.cursor_step = if by > 15 - s {
            15
        } else {
            s + by
        };
        assert(self@ =~= note_inserted(old(self)@, note));
    }

    pub fn record_note(&mut self, ch: usize, note: u8) -> (step: usize)
        requires
            valid(old(self)@),
            ch < CHANNELS,
        ensures
            final(self)@ == note_recorded(old(self)@, ch as int, note),
            step == record_step(old(self)@),
            valid(final(self)@),
    {
        let s: usize = if self.playing {
            self.play_step
        } else {
            self.cursor_step
        };
        let x: Cell = self.phrase().at(s, ch);
        self.snapshot();
        let instr: u8 = self.selected_instr;
        self.set_cell(
            s,
            ch,
            Cell { note: Some(note), instr, vol: x.vol, fx: x.fx, hold: false },
        );
        s
    }

    pub fn any_recording(&self) -> (r: bool)
        ensures
            r == any_armed(self@),
    {
        for i in 0..CHANNELS
            invariant
                forall|j: int| 0 <= j < i ==> !(#[trigger] self.recording@[j]),
        {
            if self.recording[i] {
                assert(self@.recording[i as int]);
                return true;
            }
        }
        assert forall|i: int| 0 <= i < CHANNELS implies !(#[trigger] self@.recording[i]) by {
            assert(!self.recording@[i]);
        }
        false
    }

    pub fn disarm_all(&mut self)
        requires
            valid(old(self)@),
        ensures
            final(self)@ == disarmed(old(self)@),
            valid(final(self)@),
    {
        self.recording = [false, false, false, false, false];
        assert(self.recording@ =~= Seq::new(CHANNELS as nat, |i: int| false));
        assert(self@ =~= disarmed(old(self)@));
    }
}

} // verus!
