//! Command mode: what the lines behind `:` do.

use vstd::prelude::*;

use crate::editor;
use crate::editor::keys;
use crate::editor::status::Status;
use crate::editor::{Editor, EditorView, Mode, Request, Theme};
use crate::gen::chord;
use crate::gen::dispatch;
use crate::gen::dispatch::GenError;
use crate::song;
use crate::song::{Cell, Phrase, Song, SongView, CHANNELS, STEPS_PER_PHRASE};
use crate::text;

verus! {

// ---------------------------------------------------------------- files

/// Another song in the editor, with nothing to undo.
pub open spec fn opened(e: EditorView, s: SongView, file: Option<Seq<char>>) -> EditorView {
    EditorView {
        song: s,
        file,
        cursor_step: 0,
        cursor_ch: 0,
        play_step: 0,
        undo: Seq::empty(),
        redo: Seq::empty(),
        dirty: false,
        ..e
    }
}

pub open spec fn new_song(e: EditorView) -> EditorView {
    editor::said(opened(e, song::default_song(), None), Status::NewSong)
}

pub open spec fn answered(e: EditorView) -> EditorView {
    EditorView { request: Request::Nothing, ..e }
}

/// After the song was written.
pub open spec fn wrote(e: EditorView) -> EditorView {
    let quit = e.request == Request::Write { quit: true };
    editor::said_of(
        EditorView { file: Some(e.path), dirty: false, quit: e.quit || quit, ..answered(e) },
        Status::Wrote,
        e.path,
    )
}

/// After a file could not be written or read.
pub open spec fn failed(e: EditorView, why: Seq<char>) -> EditorView {
    editor::said_of(answered(e), Status::Failed, why)
}

/// After a file to open was not there.
pub open spec fn not_there(e: EditorView) -> EditorView {
    editor::said_of(
        opened(answered(e), song::default_song(), Some(e.path)),
        Status::NewFile,
        e.path,
    )
}

/// The path of a file that was read, with how many warnings it gave and the
/// first of them.
pub open spec fn loaded_text(path: Seq<char>, warnings: Seq<Seq<char>>) -> Seq<char> {
    if warnings.len() == 0 {
        path
    } else {
        path + " ("@ + text::dec(warnings.len()) + (if warnings.len() == 1 {
            " warning: "@
        } else {
            " warnings: "@
        }) + warnings[0] + ")"@
    }
}

/// After a song was read.
pub open spec fn loaded(e: EditorView, s: SongView, warnings: Seq<Seq<char>>) -> EditorView {
    editor::said_of(
        opened(answered(e), s, Some(e.path)),
        Status::Loaded,
        loaded_text(e.path, warnings),
    )
}

/// A write that fails loses nothing: the song, what can be undone and the
/// mark of unsaved changes stay, and the editor goes on.
pub proof fn law_failed_write_keeps(e: EditorView, why: Seq<char>)
    ensures
        failed(e, why).song == e.song,
        failed(e, why).undo == e.undo,
        failed(e, why).dirty == e.dirty,
        failed(e, why).quit == e.quit,
        failed(e, why).file == e.file,
{
}

impl Editor {
    fn open_song(&mut self, s: Song, file: Option<Vec<char>>)
        requires
            editor::valid(old(self)@),
            editor::is_open(s@),
        ensures
            final(self)@ == opened(old(self)@, s@, editor::path_view(file)),
            editor::valid(final(self)@),
    {
        let ghost e = self@;
        self.song = s;
        self.file = file;
        self.cursor_step = 0;
        self.cursor_ch = 0;
        self.play_step = 0;
        self.undo = Vec::new();
        self.redo = Vec::new();
        assert(editor::song_views(self.undo@) =~= Seq::<SongView>::empty());
        assert(editor::song_views(self.redo@) =~= Seq::<SongView>::empty());
        self.dirty = false;
        assert(self@ =~= opened(e, s@, editor::path_view(file)));
    }

    pub fn start_song(&mut self)
        requires
            editor::valid(old(self)@),
        ensures
            final(self)@ == new_song(old(self)@),
            editor::valid(final(self)@),
    {
        let s: Song = Song::default();
        self.open_song(s, None);
        self.say(Status::NewSong);
    }

    /// The song was written where the request said.
    pub fn finish_write(&mut self)
        requires
            editor::valid(old(self)@),
        ensures
            final(self)@ == wrote(old(self)@),
            editor::valid(final(self)@),
    {
        let ghost e = self@;
        if let Request::Write { quit } = self.request {
            if quit {
                self.quit = true;
            }
        }
        self.request = Request::Nothing;
        let p: Vec<char> = text::copy_of(self.path.as_slice());
        let w: Vec<char> = text::copy_of(self.path.as_slice());
        self.file = Some(p);
        self.dirty = false;
        self.say_of(Status::Wrote, w);
        assert(self@ =~= wrote(e));
    }

    /// The request could not be met.
    pub fn finish_failed(&mut self, why: &str)
        requires
            editor::valid(old(self)@),
        ensures
            final(self)@ == failed(old(self)@, why@),
            editor::valid(final(self)@),
    {
        self.request = Request::Nothing;
        let w: Vec<char> = text::chars_of(why);
        self.say_of(Status::Failed, w);
        assert(self@ =~= failed(old(self)@, why@));
    }

    /// There is no file where the request said.
    pub fn finish_new_file(&mut self)
        requires
            editor::valid(old(self)@),
        ensures
            final(self)@ == not_there(old(self)@),
            editor::valid(final(self)@),
    {
        let ghost e = self@;
        self.request = Request::Nothing;
        assert(self@ =~= answered(e));
        let p: Vec<char> = text::copy_of(self.path.as_slice());
        let w: Vec<char> = text::copy_of(self.path.as_slice());
        let s: Song = Song::default();
        self.open_song(s, Some(p));
        self.say_of(Status::NewFile, w);
    }

    /// A song was read where the request said.
    pub fn finish_load(&mut self, s: Song, warnings: &Vec<String>)
        requires
            editor::valid(old(self)@),
            editor::is_open(s@),
        ensures
            final(self)@ == loaded(old(self)@, s@, text::texts(warnings@)),
            editor::valid(final(self)@),
    {
        let ghost e = self@;
        self.request = Request::Nothing;
        assert(self@ =~= answered(e));
        let p: Vec<char> = text::copy_of(self.path.as_slice());
        let mut w: Vec<char> = text::copy_of(self.path.as_slice());
        let ghost ws = text::texts(warnings@);
        assert(ws.len() == warnings@.len());
        if warnings.len() > 0 {
            text::put_str(&mut w, " (");
            text::put_dec(&mut w, warnings.len() as u64);
            if warnings.len() == 1 {
                text::put_str(&mut w, " warning: ");
            } else {
                text::put_str(&mut w, " warnings: ");
            }
            assert(ws[0] == warnings@[0]@);
            text::put_str(&mut w, warnings[0].as_str());
            text::put_str(&mut w, ")");
        }
        assert(w@ =~= loaded_text(e.path, ws));
        self.open_song(s, Some(p));
        self.say_of(Status::Loaded, w);
    }
}

// ---------------------------------------------------------------- phrases

pub open spec fn goto_phrase(e: EditorView, i: usize) -> EditorView {
    if i >= e.song.phrases.len() {
        editor::said(e, Status::NoPhrase { i, have: e.song.phrases.len() as usize })
    } else {
        keys::phrase_shown(e, i)
    }
}

pub open spec fn phrase_added(e: EditorView) -> EditorView {
    let n = e.song.phrases.len() as usize;
    editor::said(
        EditorView {
            song: SongView {
                phrases: e.song.phrases.push(song::empty_grid()),
                current_phrase: n,
                ..e.song
            },
            cursor_step: 0,
            cursor_ch: 0,
            ..editor::kept(e)
        },
        Status::NewPhrase { i: n },
    )
}

/// The current phrase deleted. The only phrase is emptied instead.
pub open spec fn phrase_deleted(e: EditorView) -> EditorView {
    let k = editor::kept(e);
    let i = e.song.current_phrase;
    if e.song.phrases.len() == 1 {
        editor::said(
            EditorView {
                song: SongView { phrases: seq![song::empty_grid()], ..e.song },
                cursor_step: 0,
                cursor_ch: 0,
                ..k
            },
            Status::PhraseCleared,
        )
    } else {
        let left = e.song.phrases.remove(i as int);
        let now = if i >= left.len() {
            (left.len() - 1) as usize
        } else {
            i
        };
        editor::said(
            EditorView {
                song: SongView { phrases: left, current_phrase: now, ..e.song },
                cursor_step: 0,
                ..k
            },
            Status::PhraseDeleted { i, now },
        )
    }
}

impl Editor {
    fn go_to(&mut self, i: usize)
        requires
            editor::valid(old(self)@),
        ensures
            final(self)@ == goto_phrase(old(self)@, i),
            editor::valid(final(self)@),
    {
        let n: usize = self.song.phrases.len();
        assert(n == self@.song.phrases.len());
        if i >= n {
            self.say(Status::NoPhrase { i, have: n });
        } else {
            self.show_phrase(i);
        }
    }

    fn add_phrase(&mut self)
        requires
            editor::valid(old(self)@),
        ensures
            final(self)@ == phrase_added(old(self)@),
            editor::valid(final(self)@),
    {
        let ghost e = self@;
        self.snapshot();
        let n: usize = self.song.phrases.len();
        assert(n == self@.song.phrases.len());
        self.song.phrases.push(Phrase::default());
        assert(song::grids(self.song.phrases@) =~= e.song.phrases.push(song::empty_grid()));
        self.song.current_phrase = n;
        self.cursor_step = 0;
        self.cursor_ch = 0;
        self.say(Status::NewPhrase { i: n });
        assert(self@ =~= phrase_added(e));
    }

    fn delete_phrase(&mut self)
        requires
            editor::valid(old(self)@),
        ensures
            final(self)@ == phrase_deleted(old(self)@),
            editor::valid(final(self)@),
    {
        let ghost e = self@;
        self.snapshot();
        let n: usize = self.song.phrases.len();
        assert(n == self@.song.phrases.len());
        let i: usize = self.song.current_phrase;
        if n == 1 {
            self.song.phrases.set(0, Phrase::default());
            assert(song::grids(self.song.phrases@) =~= seq![song::empty_grid()]);
            self.cursor_step = 0;
            self.cursor_ch = 0;
            self.say(Status::PhraseCleared);
        } else {
            let gone: Phrase = self.song.phrases.remove(i);
            assert(song::grids(self.song.phrases@) =~= e.song.phrases.remove(i as int));
            if i >= self.song.phrases.len() {
                self.song.current_phrase = self.song.phrases.len() - 1;
            }
            let now: usize = self.song.current_phrase;
            self.cursor_step = 0;
            self.say(Status::PhraseDeleted { i, now });
        }
        assert(self@ =~= phrase_deleted(e));
    }
}

// ---------------------------------------------------------------- cells

pub open spec fn vol_set(e: EditorView, tok: Seq<char>) -> EditorView {
    let x = editor::under(e);
    if x.note is None {
        editor::said(e, Status::NoNoteForVol)
    } else {
        match text::parse_uint(tok, 16, 255) {
            None => editor::said_of(e, Status::BadVol, tok),
            Some(v) => if v > 15 {
                editor::said(e, Status::VolRange { v: v as u8 })
            } else {
                editor::said(
                    editor::with_cell(
                        editor::kept(e),
                        e.cursor_step as int,
                        e.cursor_ch as int,
                        Cell { vol: v as u8, ..x },
                    ),
                    Status::VolSet { v: v as u8, s: e.cursor_step, c: e.cursor_ch as u8 },
                )
            },
        }
    }
}

pub open spec fn with_fx(e: EditorView, fx: Option<(u8, u8)>) -> EditorView {
    editor::with_cell(
        editor::kept(e),
        e.cursor_step as int,
        e.cursor_ch as int,
        Cell { fx, ..editor::under(e) },
    )
}

/// An effect read from a letter or digit and a hexadecimal number of two
/// characters.
pub open spec fn fx_set(e: EditorView, tok: Seq<char>) -> EditorView {
    let t = text::upper(tok);
    if editor::under(e).note is None {
        editor::said(e, Status::NoNoteForFx)
    } else if text::byte_len(t) != 3 {
        editor::said_of(e, Status::FxForm, t)
    } else if !text::is_alnum(t[0]) {
        editor::said(e, Status::FxLetter { key: text::lead(t[0]) })
    } else {
        match text::parse_uint(t.skip(1), 16, u8::MAX as nat) {
            None => editor::said_of(e, Status::FxParam, t.skip(1)),
            Some(p) => editor::said(
                with_fx(e, Some((t[0] as u8, p as u8))),
                Status::FxSet {
                    cmd: t[0] as u8,
                    param: p as u8,
                    s: e.cursor_step,
                    c: e.cursor_ch as u8,
                },
            ),
        }
    }
}

pub open spec fn fx_cleared(e: EditorView) -> EditorView {
    if editor::under(e).fx is None {
        editor::said(e, Status::NoFx)
    } else {
        editor::said(
            with_fx(e, None),
            Status::FxCleared { s: e.cursor_step, c: e.cursor_ch as u8 },
        )
    }
}

/// A note moved by semitones, within the range of notes.
pub open spec fn moved_note(n: u8, by: int) -> u8 {
    if n + by < 0 {
        0
    } else if n + by > 127 {
        127
    } else {
        (n + by) as u8
    }
}

/// A cell moved by semitones. Drums and samples have no pitch to move.
pub open spec fn moved_cell(x: Cell, ch: int, by: int) -> Cell {
    if ch >= 3 || x.note is None {
        x
    } else {
        Cell { note: Some(moved_note(x.note->0, by)), ..x }
    }
}

pub open spec fn moved_grid(g: Seq<Seq<Cell>>, by: int) -> Seq<Seq<Cell>> {
    editor::painted(|s: int, c: int| moved_cell(g[s][c], c, by))
}

/// How many of the first `k` cells move, row by row.
pub open spec fn moves(g: Seq<Seq<Cell>>, by: int, k: nat) -> nat
    decreases k,
{
    if k == 0 {
        0
    } else {
        let x = g[(k - 1) / 5][(k - 1) % 5];
        moves(g, by, (k - 1) as nat) + (if moved_cell(x, (k - 1) % 5, by) != x {
            1nat
        } else {
            0nat
        })
    }
}

pub open spec fn transposed(e: EditorView, tok: Seq<char>) -> EditorView {
    match text::parse_int(tok, 0x8000_0000, 0x7fff_ffff) {
        None => editor::said_of(e, Status::BadTranspose, tok),
        Some(by) => if by == 0 {
            editor::said(e, Status::TransposeZero)
        } else {
            let g = editor::grid(e);
            let n = moves(g, by, 80);
            let k = editor::kept(e);
            if n == 0 {
                editor::said(
                    EditorView { undo: k.undo.drop_last(), dirty: e.dirty, ..k },
                    Status::TransposeNone,
                )
            } else {
                editor::said(
                    editor::with_grid(k, moved_grid(g, by)),
                    if by > 0 {
                        Status::TransposedUp { n: n as usize, by: by as i32 }
                    } else {
                        Status::TransposedDown { n: n as usize, by: by as i32 }
                    },
                )
            }
        },
    }
}

/// Transposing leaves drums and samples as they are, and every note in range.
pub proof fn law_transposing_keeps_drums(g: Seq<Seq<Cell>>, by: int)
    requires
        g.len() == STEPS_PER_PHRASE,
        forall|s: int| 0 <= s < STEPS_PER_PHRASE ==> (#[trigger] g[s]).len() == CHANNELS,
    ensures
        forall|s: int, c: int|
            0 <= s < STEPS_PER_PHRASE && 3 <= c < CHANNELS ==> #[trigger] moved_grid(g, by)[s][c]
                == g[s][c],
        forall|s: int, c: int|
            0 <= s < STEPS_PER_PHRASE && 0 <= c < 3 && g[s][c].note is Some
                ==> #[trigger] moved_grid(g, by)[s][c].note is Some && moved_grid(
                g,
                by,
            )[s][c].note->0 <= 127,
{
}

/// Transposing up and down by the same amount restores a note that did not
/// reach either end.
pub proof fn law_transposing_back(n: u8, by: int)
    requires
        n <= 127,
        0 <= n + by <= 127,
    ensures
        moved_note(moved_note(n, by), -by) == n,
{
}

fn move_note(n: u8, by: i64) -> (r: u8)
    requires
        -0x8000_0000 <= by <= 0x7fff_ffff,
    ensures
        r == moved_note(n, by as int),
{
    let m: i64 = n as i64 + by;
    if m < 0 {
        0
    } else if m > 127 {
        127
    } else {
        m as u8
    }
}

proof fn lemma_moved_same(x: Cell, ch: int, by: int)
    ensures
        ch < 3 && x.note is Some ==> (moved_cell(x, ch, by) != x <==> moved_note(x.note->0, by)
            != x.note->0),
{
}

fn move_phrase(p: &Phrase, by: i64) -> (r: (Phrase, usize))
    requires
        -0x8000_0000 <= by <= 0x7fff_ffff,
    ensures
        r.0@ == moved_grid(p@, by as int),
        r.1 == moves(p@, by as int, 80),
        moves(p@, by as int, 80) <= 80,
{
    let mut r: Phrase = *p;
    let mut n: usize = 0;
    let ghost f = |s: int, c: int| moved_cell(p@[s][c], c, by as int);
    for s in 0..STEPS_PER_PHRASE
        invariant
            -0x8000_0000 <= by <= 0x7fff_ffff,
            n == moves(p@, by as int, (s * 5) as nat),
            n <= s * 5,
            forall|k: int, d: int|
                0 <= k < STEPS_PER_PHRASE && 0 <= d < CHANNELS ==> #[trigger] r@[k][d] == (if k
                    < s {
                    moved_cell(p@[k][d], d, by as int)
                } else {
                    p@[k][d]
                }),
    {
        for c in 0..CHANNELS
            invariant
                -0x8000_0000 <= by <= 0x7fff_ffff,
                0 <= s < STEPS_PER_PHRASE,
                n == moves(p@, by as int, (s * 5 + c) as nat),
                n <= s * 5 + c,
                forall|k: int, d: int|
                    0 <= k < STEPS_PER_PHRASE && 0 <= d < CHANNELS ==> #[trigger] r@[k][d] == (
                    if k < s || (k == s && d < c) {
                        moved_cell(p@[k][d], d, by as int)
                    } else {
                        p@[k][d]
                    }),
        {
            let x: Cell = p.at(s, c);
            assert((s * 5 + c) / 5 == s && (s * 5 + c) % 5 == c);
            proof {
                lemma_moved_same(x, c as int, by as int);
            }
            if c < 3 {
                if let Some(note) = x.note {
                    let to: u8 = move_note(note, by);
                    if to != note {
                        n = n + 1;
                    }
                    r.put(
                        s,
                        c,
                        Cell { note: Some(to), instr: x.instr, vol: x.vol, fx: x.fx, hold: x.hold },
                    );
                }
            }
        }
    }
    proof {
        editor::lemma_painted(r, f);
        assert(editor::painted(f) =~= moved_grid(p@, by as int));
    }
    (r, n)
}

impl Editor {
    fn set_vol(&mut self, tok: &[char])
        requires
            editor::valid(old(self)@),
        ensures
            final(self)@ == vol_set(old(self)@, tok@),
            editor::valid(final(self)@),
    {
        let x: Cell = self.cell_under();
        if x.note.is_none() {
            self.say(Status::NoNoteForVol);
            return;
        }
        match text::read_uint(tok, 16, 255) {
            None => {
                let w: Vec<char> = text::copy_of(tok);
                self.say_of(Status::BadVol, w);
            },
            Some(v) => {
                if v > 15 {
                    self.say(Status::VolRange { v: v as u8 });
                } else {
                    let (s, c): (usize, usize) = (self.cursor_step, self.cursor_ch);
                    self.snapshot();
                    self.set_cell(
                        s,
                        c,
                        Cell { note: x.note, instr: x.instr, vol: v as u8, fx: x.fx, hold: x.hold },
                    );
                    self.say(Status::VolSet { v: v as u8, s, c: c as u8 });
                }
            },
        }
    }

    fn put_fx(&mut self, fx: Option<(u8, u8)>)
        requires
            editor::valid(old(self)@),
        ensures
            final(self)@ == with_fx(old(self)@, fx),
            editor::valid(final(self)@),
    {
        let x: Cell = self.cell_under();
        let (s, c): (usize, usize) = (self.cursor_step, self.cursor_ch);
        self.snapshot();
        self.set_cell(
            s,
            c,
            Cell { note: x.note, instr: x.instr, vol: x.vol, fx, hold: x.hold },
        );
    }

    fn set_fx(&mut self, tok: &[char])
        requires
            editor::valid(old(self)@),
        ensures
            final(self)@ == fx_set(old(self)@, tok@),
            editor::valid(final(self)@),
    {
        let (s, c): (usize, usize) = (self.cursor_step, self.cursor_ch);
        if self.cell_under().note.is_none() {
            self.say(Status::NoNoteForFx);
            return;
        }
        let t: Vec<char> = text::upper_of(tok);
        if !text::has_byte_len(t.as_slice(), 3) {
            self.say_of(Status::FxForm, t);
            return;
        }
        assert(t@.len() > 0);
        let key: char = t[0];
        if !('A' <= key && key <= 'Z' || 'a' <= key && key <= 'z' || '0' <= key && key <= '9') {
            self.say(Status::FxLetter { key: text::lead_of(key) });
            return;
        }
        let rest: &[char] = text::tail(t.as_slice(), 1);
        match text::read_uint(rest, 16, u8::MAX as u64) {
            None => {
                let w: Vec<char> = text::copy_of(rest);
                self.say_of(Status::FxParam, w);
            },
            Some(p) => {
                let cmd: u8 = key as u8;
                self.put_fx(Some((cmd, p as u8)));
                self.say(Status::FxSet { cmd, param: p as u8, s, c: c as u8 });
            },
        }
    }

    fn clear_fx(&mut self)
        requires
            editor::valid(old(self)@),
        ensures
            final(self)@ == fx_cleared(old(self)@),
            editor::valid(final(self)@),
    {
        let (s, c): (usize, usize) = (self.cursor_step, self.cursor_ch);
        if self.cell_under().fx.is_none() {
            self.say(Status::NoFx);
            return;
        }
        self.put_fx(None);
        self.say(Status::FxCleared { s, c: c as u8 });
    }

    fn transpose(&mut self, tok: &[char])
        requires
            editor::valid(old(self)@),
        ensures
            final(self)@ == transposed(old(self)@, tok@),
            editor::valid(final(self)@),
    {
        match text::read_int(tok, 0x8000_0000, 0x7fff_ffff) {
            None => {
                let w: Vec<char> = text::copy_of(tok);
                self.say_of(Status::BadTranspose, w);
            },
            Some(by) => {
                if by == 0 {
                    self.say(Status::TransposeZero);
                    return;
                }
                let was: bool = self.dirty;
                let p: Phrase = self.phrase();
                let (q, n): (Phrase, usize) = move_phrase(&p, by);
                self.snapshot();
                if n == 0 {
                    self.forget_last();
                    self.dirty = was;
                    self.say(Status::TransposeNone);
                    assert(self@ =~= transposed(old(self)@, tok@));
                } else {
                    self.set_phrase(q);
                    if by > 0 {
                        self.say(Status::TransposedUp { n, by: by as i32 });
                    } else {
                        self.say(Status::TransposedDown { n, by: by as i32 });
                    }
                }
            },
        }
    }
}

// ---------------------------------------------------------------- generators

pub open spec fn next_seed(n: u64) -> u64 {
    if n == u64::MAX {
        0
    } else {
        (n + 1) as u64
    }
}

/// A generator run on the current phrase. One that fails is no change: it
/// leaves the song and what can be undone as they were.
pub open spec fn generated(e: EditorView, args: Seq<Seq<char>>) -> EditorView {
    let gen_seed = next_seed(e.gen_seed);
    let out = dispatch::dispatched(e.song, args, e.gen_seed);
    match out.0 {
        Ok(t) => editor::said_of(
            EditorView { song: out.1, gen_seed, ..editor::kept(e) },
            Status::GenDone,
            t,
        ),
        Err(f) => editor::said_of(
            EditorView { gen_seed, ..e },
            Status::GenFailed,
            dispatch::told(args, f),
        ),
    }
}

/// A generator that fails leaves the song, what can be undone and what can be
/// redone as they were, and says why it failed.
pub proof fn law_failed_generator_changes_nothing(e: EditorView, args: Seq<Seq<char>>)
    requires
        dispatch::dispatched(e.song, args, e.gen_seed).0 is Err,
    ensures
        generated(e, args).song == e.song,
        generated(e, args).undo == e.undo,
        generated(e, args).redo == e.redo,
        generated(e, args).dirty == e.dirty,
        generated(e, args).status == Status::GenFailed,
        generated(e, args).word == dispatch::told(
            args,
            dispatch::dispatched(e.song, args, e.gen_seed).0->Err_0,
        ),
{
}

fn strings_from(ws: &Vec<&[char]>, k: usize) -> (r: Vec<String>)
    requires
        k <= ws@.len(),
    ensures
        text::texts(r@) == text::views(ws@).skip(k as int),
{
    let mut r: Vec<String> = Vec::new();
    for i in k..ws.len()
        invariant
            k <= ws@.len(),
            r@.len() == i - k,
            forall|j: int| 0 <= j < r@.len() ==> (#[trigger] r@[j])@ == ws@[k + j]@,
    {
        r.push(text::string_of(ws[i]));
    }
    assert(text::texts(r@) =~= text::views(ws@).skip(k as int));
    r
}

fn strs_of<'a>(v: &'a Vec<String>) -> (r: Vec<&'a str>)
    ensures
        chord::str_views(r@) == text::texts(v@),
{
    let mut r: Vec<&'a str> = Vec::new();
    for i in 0..v.len()
        invariant
            r@.len() == i,
            forall|j: int| 0 <= j < r@.len() ==> (#[trigger] r@[j])@ == v@[j]@,
    {
        r.push(v[i].as_str());
    }
    assert(chord::str_views(r@) =~= text::texts(v@));
    r
}

impl Editor {
    fn generate(&mut self, ws: &Vec<&[char]>)
        requires
            editor::valid(old(self)@),
            ws@.len() >= 1,
            old(self)@.song.current_phrase + ws@.len() + 12 <= usize::MAX,
        ensures
            final(self)@ == generated(old(self)@, text::views(ws@).skip(1)),
            editor::valid(final(self)@),
    {
        let ghost e = self@;
        let seed: u64 = self.gen_seed;
        let next: u64 = if seed == u64::MAX {
            0
        } else {
            seed + 1
        };
        let held: Vec<String> = strings_from(ws, 1);
        let args: Vec<&str> = strs_of(&held);
        assert(chord::str_views(args@).len() == args@.len());
        assert(text::views(ws@).len() == ws@.len());
        assert(self@.song.phrases.len() == self.song.phrases@.len());
        let mut trial: Song = song::copy_song(&self.song);
        assert(trial@.phrases.len() == trial.phrases@.len());
        proof {
            dispatch::law_commands_keep_the_place(e.song, chord::str_views(args@), seed);
        }
        let out: Result<String, GenError> = dispatch::dispatch(&mut trial, args.as_slice(), seed);
        match out {
            Ok(t) => {
                self.snapshot();
                self.song = trial;
                self.gen_seed = next;
                let w: Vec<char> = text::chars_of(t.as_str());
                self.say_of(Status::GenDone, w);
                assert(self@ =~= generated(e, text::views(ws@).skip(1)));
            },
            Err(f) => {
                self.gen_seed = next;
                let t: String = dispatch::explain(args.as_slice(), f);
                let w: Vec<char> = text::chars_of(t.as_str());
                self.say_of(Status::GenFailed, w);
                assert(self@ =~= generated(e, text::views(ws@).skip(1)));
            },
        }
    }
}

// ---------------------------------------------------------------- settings

/// The first `k` words with blanks between.
pub open spec fn joined(w: Seq<Seq<char>>, k: nat) -> Seq<char>
    decreases k,
{
    if k == 0 {
        Seq::empty()
    } else if k == 1 {
        w[0]
    } else {
        joined(w, (k - 1) as nat) + " "@ + w[k - 1]
    }
}

fn join_from(ws: &Vec<&[char]>, k: usize) -> (r: Vec<char>)
    requires
        k <= ws@.len(),
    ensures
        r@ == joined(text::views(ws@).skip(k as int), (ws@.len() - k) as nat),
{
    let ghost w = text::views(ws@).skip(k as int);
    assert(text::views(ws@).len() == ws@.len());
    let mut r: Vec<char> = Vec::new();
    for i in k..ws.len()
        invariant
            k <= ws@.len(),
            w == text::views(ws@).skip(k as int),
            text::views(ws@).len() == ws@.len(),
            r@ == joined(w, (i - k) as nat),
    {
        if i > k {
            text::put_str(&mut r, " ");
        }
        assert(w[i - k] == ws@[i as int]@);
        text::put(&mut r, ws[i]);
        assert(r@ =~= joined(w, (i + 1 - k) as nat));
    }
    r
}

pub open spec fn bpm_set(e: EditorView, v: Seq<char>) -> EditorView {
    match text::parse_uint(v, 10, 65535) {
        None => editor::said_of(e, Status::BadBpm, v),
        Some(n) => if 20 <= n <= 999 {
            editor::said(
                EditorView { song: SongView { bpm: n as u16, ..e.song }, ..editor::kept(e) },
                Status::BpmSet { n: n as u16 },
            )
        } else {
            editor::said(e, Status::BpmRange { n: n as u16 })
        },
    }
}

pub open spec fn step_set(e: EditorView, v: Seq<char>) -> EditorView {
    match text::parse_uint(v, 10, usize::MAX as nat) {
        None => editor::said_of(e, Status::BadStep, v),
        Some(n) => if 1 <= n <= STEPS_PER_PHRASE {
            editor::said(
                EditorView {
                    song: SongView { edit_step: n as usize, ..e.song },
                    ..editor::kept(e)
                },
                Status::StepSet { n: n as usize },
            )
        } else {
            editor::said(e, Status::StepRange { n: n as usize })
        },
    }
}

pub open spec fn octave_set(e: EditorView, v: Seq<char>) -> EditorView {
    match text::parse_uint(v, 10, 255) {
        None => editor::said_of(e, Status::BadOctave, v),
        Some(n) => if n <= 8 {
            editor::said(
                EditorView { insert_octave: n as u8, ..e },
                Status::OctaveSet { n: n as u8 },
            )
        } else {
            editor::said(e, Status::OctaveRange { n: n as u8 })
        },
    }
}

pub open spec fn theme_named(v: Seq<char>) -> Option<Theme> {
    if v == "nes"@ {
        Some(Theme::Nes)
    } else if v == "phosphor"@ {
        Some(Theme::Phosphor)
    } else {
        None
    }
}

pub open spec fn theme_set(e: EditorView, v: Seq<char>) -> EditorView {
    match theme_named(v) {
        Some(t) => editor::said_of(EditorView { theme: t, ..e }, Status::ThemeSet, v),
        None => editor::said_of(e, Status::UnknownTheme, v),
    }
}

/// `key=value`, with blanks allowed around the sign.
pub open spec fn setting(e: EditorView, line: Seq<char>) -> EditorView {
    match text::cut_word(line) {
        None => editor::said(e, Status::SetUsage),
        Some((k, v)) => {
            let k = text::trim(k);
            let v = text::trim(v);
            if k == "bpm"@ {
                bpm_set(e, v)
            } else if k == "step"@ {
                step_set(e, v)
            } else if k == "octave"@ {
                octave_set(e, v)
            } else if k == "theme"@ {
                theme_set(e, v)
            } else {
                editor::said_of(e, Status::UnknownSetting, k)
            }
        },
    }
}

impl Theme {
    pub fn by_name(v: &[char]) -> (r: Option<Theme>)
        ensures
            r == theme_named(v@),
    {
        if text::is_lit(v, "nes") {
            Some(Theme::Nes)
        } else if text::is_lit(v, "phosphor") {
            Some(Theme::Phosphor)
        } else {
            None
        }
    }
}

impl Editor {
    fn set_bpm(&mut self, v: &[char])
        requires
            editor::valid(old(self)@),
        ensures
            final(self)@ == bpm_set(old(self)@, v@),
            editor::valid(final(self)@),
    {
        let ghost e = self@;
        match text::read_uint(v, 10, 65535) {
            None => {
                let w: Vec<char> = text::copy_of(v);
                self.say_of(Status::BadBpm, w);
            },
            Some(n) => {
                if 20 <= n && n <= 999 {
                    self.snapshot();
                    self.song.bpm = n as u16;
                    self.say(Status::BpmSet { n: n as u16 });
                    assert(self@ =~= bpm_set(e, v@));
                } else {
                    self.say(Status::BpmRange { n: n as u16 });
                }
            },
        }
    }

    fn set_step(&mut self, v: &[char])
        requires
            editor::valid(old(self)@),
        ensures
            final(self)@ == step_set(old(self)@, v@),
            editor::valid(final(self)@),
    {
        let ghost e = self@;
        match text::read_uint(v, 10, usize::MAX as u64) {
            None => {
                let w: Vec<char> = text::copy_of(v);
                self.say_of(Status::BadStep, w);
            },
            Some(n) => {
                if 1 <= n && n <= 16 {
                    self.snapshot();
                    self.song.edit_step = n as usize;
                    self.say(Status::StepSet { n: n as usize });
                    assert(self@ =~= step_set(e, v@));
                } else {
                    self.say(Status::StepRange { n: n as usize });
                }
            },
        }
    }

    fn set_octave(&mut self, v: &[char])
        requires
            editor::valid(old(self)@),
        ensures
            final(self)@ == octave_set(old(self)@, v@),
            editor::valid(final(self)@),
    {
        let ghost e = self@;
        match text::read_uint(v, 10, 255) {
            None => {
                let w: Vec<char> = text::copy_of(v);
                self.say_of(Status::BadOctave, w);
            },
            Some(n) => {
                if n <= 8 {
                    self.insert_octave = n as u8;
                    self.say(Status::OctaveSet { n: n as u8 });
                    assert(self@ =~= octave_set(e, v@));
                } else {
                    self.say(Status::OctaveRange { n: n as u8 });
                }
            },
        }
    }

    fn set_theme(&mut self, v: &[char])
        requires
            editor::valid(old(self)@),
        ensures
            final(self)@ == theme_set(old(self)@, v@),
            editor::valid(final(self)@),
    {
        let ghost e = self@;
        let w: Vec<char> = text::copy_of(v);
        match Theme::by_name(v) {
            Some(t) => {
                self.theme = t;
                self.say_of(Status::ThemeSet, w);
                assert(self@ =~= theme_set(e, v@));
            },
            None => {
                self.say_of(Status::UnknownTheme, w);
            },
        }
    }

    fn change_setting(&mut self, line: &[char])
        requires
            editor::valid(old(self)@),
        ensures
            final(self)@ == setting(old(self)@, line@),
            editor::valid(final(self)@),
    {
        match text::split_at_eq(line) {
            None => self.say(Status::SetUsage),
            Some((k, v)) => {
                let k: &[char] = text::trimmed(k);
                let v: &[char] = text::trimmed(v);
                if text::is_lit(k, "bpm") {
                    self.set_bpm(v);
                } else if text::is_lit(k, "step") {
                    self.set_step(v);
                } else if text::is_lit(k, "octave") {
                    self.set_octave(v);
                } else if text::is_lit(k, "theme") {
                    self.set_theme(v);
                } else {
                    let w: Vec<char> = text::copy_of(k);
                    self.say_of(Status::UnknownSetting, w);
                }
            },
        }
    }
}

// ---------------------------------------------------------------- commands

/// The command alone.
pub open spec fn bare(w: Seq<Seq<char>>, name: Seq<char>) -> bool {
    w.len() == 1 && w[0] == name
}

/// The command with one argument.
pub open spec fn with_arg(w: Seq<Seq<char>>, name: Seq<char>) -> bool {
    w.len() == 2 && w[0] == name
}

fn is_bare(ws: &Vec<&[char]>, name: &str) -> (r: bool)
    ensures
        r == bare(text::views(ws@), name@),
{
    assert(text::views(ws@).len() == ws@.len());
    ws.len() == 1 && text::is_lit(ws[0], name)
}

fn has_arg(ws: &Vec<&[char]>, name: &str) -> (r: bool)
    ensures
        r == with_arg(text::views(ws@), name@),
{
    assert(text::views(ws@).len() == ws@.len());
    ws.len() == 2 && text::is_lit(ws[0], name)
}

pub open spec fn instrument_named(e: EditorView, n: Seq<char>) -> EditorView {
    let i = match text::parse_uint(n, 16, 255) {
        Some(i) => if i > 15 {
            15u8
        } else {
            i as u8
        },
        None => e.selected_instr,
    };
    editor::said(
        EditorView { selected_instr: i, mode: Mode::Instrument, ..e },
        Status::InstrumentShown { i },
    )
}

/// Commands that switch modes and transport.
pub open spec fn mode_command(e: EditorView, w: Seq<Seq<char>>) -> Option<EditorView> {
    if bare(w, "q"@) || bare(w, "q!"@) || bare(w, "quit"@) || bare(w, "quit!"@) {
        Some(EditorView { quit: true, ..e })
    } else if bare(w, "help"@) || bare(w, "h"@) {
        Some(editor::said(EditorView { mode: Mode::Help, ..e }, Status::Help))
    } else if bare(w, "inst"@) || bare(w, "instrument"@) {
        Some(keys::instrument_entered(e))
    } else if with_arg(w, "inst"@) || with_arg(w, "instrument"@) {
        Some(instrument_named(e, w[1]))
    } else if bare(w, "play"@) {
        Some(editor::said(EditorView { playing: true, ..e }, Status::PlayingNow))
    } else if bare(w, "stop"@) {
        Some(editor::said(EditorView { playing: false, ..e }, Status::Stopped))
    } else if bare(w, "rec"@) {
        Some(keys::arm_toggled(e))
    } else if with_arg(w, "rec"@) && w[1] == "off"@ {
        Some(editor::said(editor::disarmed(e), Status::RecAllOff))
    } else {
        None
    }
}

/// Commands on files.
pub open spec fn file_command(e: EditorView, w: Seq<Seq<char>>) -> Option<EditorView> {
    if bare(w, "w"@) {
        Some(keys::saving(e, false))
    } else if with_arg(w, "w"@) {
        Some(keys::requested(e, Request::Write { quit: false }, w[1]))
    } else if bare(w, "wq"@) {
        Some(keys::saving(e, true))
    } else if with_arg(w, "wq"@) {
        Some(keys::requested(e, Request::Write { quit: true }, w[1]))
    } else if with_arg(w, "e"@) {
        Some(keys::requested(e, Request::Open, w[1]))
    } else if bare(w, "new"@) {
        Some(new_song(e))
    } else if bare(w, "e!"@) || bare(w, "edit!"@) {
        Some(
            match e.file {
                Some(p) => keys::requested(e, Request::Open, p),
                None => editor::said(e, Status::NoFileLoaded),
            },
        )
    } else {
        None
    }
}

/// Commands on phrases.
pub open spec fn phrase_command(e: EditorView, w: Seq<Seq<char>>) -> Option<EditorView> {
    if bare(w, "phrase"@) || bare(w, "p"@) {
        Some(
            editor::said(
                e,
                Status::PhraseOf {
                    i: e.song.current_phrase,
                    last: (e.song.phrases.len() - 1) as usize,
                },
            ),
        )
    } else if !with_arg(w, "phrase"@) {
        None
    } else if w[1] == "new"@ {
        Some(phrase_added(e))
    } else if w[1] == "del"@ || w[1] == "delete"@ {
        Some(phrase_deleted(e))
    } else {
        Some(
            match text::parse_uint(w[1], 16, 255) {
                Some(i) => goto_phrase(e, i as usize),
                None => editor::said_of(e, Status::BadPhrase, w[1]),
            },
        )
    }
}

/// Commands on cells.
pub open spec fn cell_command(e: EditorView, w: Seq<Seq<char>>) -> Option<EditorView> {
    if with_arg(w, "vol"@) {
        Some(vol_set(e, w[1]))
    } else if with_arg(w, "transpose"@) || with_arg(w, "tr"@) {
        Some(transposed(e, w[1]))
    } else if with_arg(w, "fx"@) {
        Some(
            if w[1] == "off"@ || w[1] == "clear"@ {
                fx_cleared(e)
            } else {
                fx_set(e, w[1])
            },
        )
    } else if w.len() == 3 && w[0] == "fx"@ {
        Some(fx_set(e, w[1] + w[2]))
    } else {
        None
    }
}

/// What a command line does. A generator whose phrases could not be counted
/// is not run.
pub open spec fn executed(e: EditorView, cmd: Seq<char>) -> EditorView {
    let w = text::words(cmd);
    if mode_command(e, w) is Some {
        mode_command(e, w)->0
    } else if file_command(e, w) is Some {
        file_command(e, w)->0
    } else if phrase_command(e, w) is Some {
        phrase_command(e, w)->0
    } else if cell_command(e, w) is Some {
        cell_command(e, w)->0
    } else if w.len() > 0 && w[0] == "gen"@ && e.song.current_phrase + w.len() + 12 <= usize::MAX {
        generated(e, w.skip(1))
    } else if w.len() > 0 && w[0] == "set"@ {
        setting(e, joined(w.skip(1), (w.len() - 1) as nat))
    } else {
        editor::said_of(e, Status::UnknownCommand, cmd)
    }
}

impl Editor {
    fn name_instrument(&mut self, n: &[char])
        requires
            editor::valid(old(self)@),
        ensures
            final(self)@ == instrument_named(old(self)@, n@),
            editor::valid(final(self)@),
    {
        if let Some(i) = text::read_uint(n, 16, 255) {
            self.selected_instr = if i > 15 {
                15
            } else {
                i as u8
            };
        }
        self.mode = Mode::Instrument;
        let i: u8 = self.selected_instr;
        self.say(Status::InstrumentShown { i });
        assert(self@ =~= instrument_named(old(self)@, n@));
    }

    fn set_playing(&mut self, on: bool)
        requires
            editor::valid(old(self)@),
        ensures
            final(self)@ == (EditorView { playing: on, ..old(self)@ }),
            editor::valid(final(self)@),
    {
        self.playing = on;
        assert(self@ =~= (EditorView { playing: on, ..old(self)@ }));
    }

    fn try_mode(&mut self, ws: &Vec<&[char]>) -> (done: bool)
        requires
            editor::valid(old(self)@),
        ensures
            done == (mode_command(old(self)@, text::views(ws@)) is Some),
            final(self)@ == (match mode_command(old(self)@, text::views(ws@)) {
                Some(e) => e,
                None => old(self)@,
            }),
            editor::valid(final(self)@),
    {
        assert(text::views(ws@).len() == ws@.len());
        if is_bare(ws, "q") || is_bare(ws, "q!") || is_bare(ws, "quit") || is_bare(ws, "quit!") {
            self.quit_now();
        } else if is_bare(ws, "help") || is_bare(ws, "h") {
            self.set_mode(Mode::Help);
            self.say(Status::Help);
        } else if is_bare(ws, "inst") || is_bare(ws, "instrument") {
            self.enter_instrument_mode();
        } else if has_arg(ws, "inst") || has_arg(ws, "instrument") {
            self.name_instrument(ws[1]);
        } else if is_bare(ws, "play") {
            self.set_playing(true);
            self.say(Status::PlayingNow);
        } else if is_bare(ws, "stop") {
            self.set_playing(false);
            self.say(Status::Stopped);
        } else if is_bare(ws, "rec") {
            self.toggle_record_arm();
        } else if has_arg(ws, "rec") && text::is_lit(ws[1], "off") {
            self.disarm_all();
            self.say(Status::RecAllOff);
        } else {
            return false;
        }
        true
    }

    fn reopen(&mut self)
        requires
            editor::valid(old(self)@),
        ensures
            final(self)@ == (match old(self)@.file {
                Some(p) => keys::requested(old(self)@, Request::Open, p),
                None => editor::said(old(self)@, Status::NoFileLoaded),
            }),
            editor::valid(final(self)@),
    {
        let p: Option<Vec<char>> = match &self.file {
            None => None,
            Some(p) => Some(text::copy_of(p.as_slice())),
        };
        match p {
            None => self.say(Status::NoFileLoaded),
            Some(p) => self.leave_request(Request::Open, p),
        }
    }

    fn try_file(&mut self, ws: &Vec<&[char]>) -> (done: bool)
        requires
            editor::valid(old(self)@),
        ensures
            done == (file_command(old(self)@, text::views(ws@)) is Some),
            final(self)@ == (match file_command(old(self)@, text::views(ws@)) {
                Some(e) => e,
                None => old(self)@,
            }),
            editor::valid(final(self)@),
    {
        assert(text::views(ws@).len() == ws@.len());
        if is_bare(ws, "w") {
            self.save(false);
        } else if has_arg(ws, "w") {
            let p: Vec<char> = text::copy_of(ws[1]);
            self.leave_request(Request::Write { quit: false }, p);
        } else if is_bare(ws, "wq") {
            self.save(true);
        } else if has_arg(ws, "wq") {
            let p: Vec<char> = text::copy_of(ws[1]);
            self.leave_request(Request::Write { quit: true }, p);
        } else if has_arg(ws, "e") {
            let p: Vec<char> = text::copy_of(ws[1]);
            self.leave_request(Request::Open, p);
        } else if is_bare(ws, "new") {
            self.start_song();
        } else if is_bare(ws, "e!") || is_bare(ws, "edit!") {
            self.reopen();
        } else {
            return false;
        }
        true
    }

    fn try_phrase(&mut self, ws: &Vec<&[char]>) -> (done: bool)
        requires
            editor::valid(old(self)@),
        ensures
            done == (phrase_command(old(self)@, text::views(ws@)) is Some),
            final(self)@ == (match phrase_command(old(self)@, text::views(ws@)) {
                Some(e) => e,
                None => old(self)@,
            }),
            editor::valid(final(self)@),
    {
        assert(text::views(ws@).len() == ws@.len());
        if is_bare(ws, "phrase") || is_bare(ws, "p") {
            let i: usize = self.song.current_phrase;
            assert(self@.song.phrases.len() == self.song.phrases@.len());
            let last: usize = self.song.phrases.len() - 1;
            self.say(Status::PhraseOf { i, last });
        } else if !has_arg(ws, "phrase") {
            return false;
        } else if text::is_lit(ws[1], "new") {
            self.add_phrase();
        } else if text::is_lit(ws[1], "del") || text::is_lit(ws[1], "delete") {
            self.delete_phrase();
        } else {
            match text::read_uint(ws[1], 16, 255) {
                Some(i) => self.go_to(i as usize),
                None => {
                    let w: Vec<char> = text::copy_of(ws[1]);
                    self.say_of(Status::BadPhrase, w);
                },
            }
        }
        true
    }

    fn try_cell(&mut self, ws: &Vec<&[char]>) -> (done: bool)
        requires
            editor::valid(old(self)@),
        ensures
            done == (cell_command(old(self)@, text::views(ws@)) is Some),
            final(self)@ == (match cell_command(old(self)@, text::views(ws@)) {
                Some(e) => e,
                None => old(self)@,
            }),
            editor::valid(final(self)@),
    {
        assert(text::views(ws@).len() == ws@.len());
        if has_arg(ws, "vol") {
            self.set_vol(ws[1]);
        } else if has_arg(ws, "transpose") || has_arg(ws, "tr") {
            self.transpose(ws[1]);
        } else if has_arg(ws, "fx") {
            if text::is_lit(ws[1], "off") || text::is_lit(ws[1], "clear") {
                self.clear_fx();
            } else {
                self.set_fx(ws[1]);
            }
        } else if ws.len() == 3 && text::is_lit(ws[0], "fx") {
            let mut t: Vec<char> = text::copy_of(ws[1]);
            text::put(&mut t, ws[2]);
            self.set_fx(t.as_slice());
        } else {
            return false;
        }
        true
    }

    /// Runs a command line.
    pub fn execute_command(&mut self, cmd: &[char])
        requires
            editor::valid(old(self)@),
        ensures
            final(self)@ == executed(old(self)@, cmd@),
            editor::valid(final(self)@),
    {
        let ws: Vec<&[char]> = text::split_words(cmd);
        assert(text::views(ws@).len() == ws@.len());
        if self.try_mode(&ws) {
            return;
        }
        if self.try_file(&ws) {
            return;
        }
        if self.try_phrase(&ws) {
            return;
        }
        if self.try_cell(&ws) {
            return;
        }
        let n: usize = ws.len();
        if n > 0 && text::is_lit(ws[0], "gen") && self.song.current_phrase <= usize::MAX - 12 && n
            <= usize::MAX - 12 - self.song.current_phrase {
            self.generate(&ws);
        } else if n > 0 && text::is_lit(ws[0], "set") {
            let line: Vec<char> = join_from(&ws, 1);
            self.change_setting(line.as_slice());
        } else {
            let w: Vec<char> = text::copy_of(cmd);
            self.say_of(Status::UnknownCommand, w);
        }
    }
}

} // verus!
