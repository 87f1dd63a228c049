//! What the screen shows, as text and shades; colors are chosen elsewhere.

use vstd::prelude::*;

use crate::editor;
use crate::editor::keys;
use crate::editor::status;
use crate::editor::{Area, Editor, EditorView, Mode, Operator, Pending};
use crate::song::{Cell, CHANNELS};
use crate::text;
use crate::vip;

verus! {

// ---------------------------------------------------------------- cells

/// A note's name with its octave, which is below zero for the lowest.
pub open spec fn name_of(n: u8) -> Seq<char> {
    seq![
        vip::pitch_letter(n as int % 12),
        if vip::is_sharp(n as int % 12) {
            '#'
        } else {
            '-'
        },
    ] + text::signed_dec(n as int / 12 - 1)
}

pub open spec fn note_column(x: Cell) -> Seq<char> {
    if x.hold {
        "==="@
    } else {
        match x.note {
            None => "---"@,
            Some(n) => name_of(n),
        }
    }
}

pub open spec fn instr_column(x: Cell) -> Seq<char> {
    if x.note is Some {
        text::hex2(x.instr as nat)
    } else {
        "--"@
    }
}

/// The volume; nothing is shown for full.
pub open spec fn vol_column(x: Cell) -> Seq<char> {
    if x.note is Some && x.vol > 0 {
        text::hex2(x.vol as nat)
    } else {
        "--"@
    }
}

pub open spec fn fx_column(x: Cell) -> Seq<char> {
    match x.fx {
        Some((cmd, param)) => seq![cmd as char] + text::hex2(param as nat),
        None => "---"@,
    }
}

fn put_name(out: &mut Vec<char>, n: u8)
    ensures
        final(out)@ == old(out)@ + name_of(n),
{
    let ghost before = out@;
    let pc: u8 = n % 12;
    out.push(vip::letter_of(pc));
    out.push(
        if vip::has_sharp(pc) {
            '#'
        } else {
            '-'
        },
    );
    text::put_int(out, n as i64 / 12 - 1);
    assert(out@ =~= before + name_of(n));
}

/// A note's name with its octave.
pub fn note_name(n: u8) -> (r: String)
    ensures
        r@ == name_of(n),
{
    let mut t: Vec<char> = Vec::new();
    put_name(&mut t, n);
    assert(t@ =~= name_of(n));
    text::string_of(t.as_slice())
}

/// The four columns of a cell.
pub fn cell_columns(x: Cell) -> (r: (String, String, String, String))
    ensures
        r.0@ == note_column(x),
        r.1@ == instr_column(x),
        r.2@ == vol_column(x),
        r.3@ == fx_column(x),
{
    let mut note: Vec<char> = Vec::new();
    let mut instr: Vec<char> = Vec::new();
    let mut vol: Vec<char> = Vec::new();
    let mut fx: Vec<char> = Vec::new();
    if x.hold {
        text::put_str(&mut note, "===");
    } else {
        match x.note {
            None => text::put_str(&mut note, "---"),
            Some(n) => put_name(&mut note, n),
        }
    }
    if x.note.is_some() {
        text::put_hex2(&mut instr, x.instr as u64);
    } else {
        text::put_str(&mut instr, "--");
    }
    if x.note.is_some() && x.vol > 0 {
        text::put_hex2(&mut vol, x.vol as u64);
    } else {
        text::put_str(&mut vol, "--");
    }
    match x.fx {
        Some((cmd, param)) => {
            fx.push(cmd as char);
            text::put_hex2(&mut fx, param as u64);
        },
        None => text::put_str(&mut fx, "---"),
    }
    assert(note@ =~= note_column(x));
    assert(instr@ =~= instr_column(x));
    assert(vol@ =~= vol_column(x));
    assert(fx@ =~= fx_column(x));
    (
        text::string_of(note.as_slice()),
        text::string_of(instr.as_slice()),
        text::string_of(vol.as_slice()),
        text::string_of(fx.as_slice()),
    )
}

// ---------------------------------------------------------------- shades

#[derive(Clone, Copy, Debug, PartialEq, Eq, Structural)]
pub enum Shade {
    Plain,
    Column,
    Playhead,
    Selection,
    Cursor,
}

pub open spec fn is_selected(e: EditorView, s: int, c: int) -> bool {
    e.mode == Mode::Visual && e.anchor is Some && editor::covers(editor::selected_area(e), s, c)
}

/// A cell's background: the cursor over the selection, that over the row
/// being played, that over the cursor's column.
pub open spec fn shade(e: EditorView, s: int, c: int) -> Shade {
    if s == e.cursor_step && c == e.cursor_ch {
        Shade::Cursor
    } else if is_selected(e, s, c) {
        Shade::Selection
    } else if e.playing && s == e.play_step {
        Shade::Playhead
    } else if c == e.cursor_ch {
        Shade::Column
    } else {
        Shade::Plain
    }
}

/// Whether a channel's header is lit: it is struck at the playhead.
pub open spec fn is_lit(e: EditorView, c: int) -> bool {
    e.playing && editor::grid(e)[e.play_step as int][c].note is Some
}

/// The selection shown is the area that an operator takes, but for the
/// cursor's own cell, which is in both.
pub proof fn law_selection_is_shown(e: EditorView, s: int, c: int)
    requires
        editor::valid(e),
        e.mode == Mode::Visual,
        e.anchor is Some,
    ensures
        editor::covers(editor::selected_area(e), s, c) <==> shade(e, s, c) == Shade::Selection || (s
            == e.cursor_step && c == e.cursor_ch),
{
}

impl Editor {
    pub fn shade_of(&self, s: usize, c: usize) -> (r: Shade)
        requires
            editor::valid(self@),
        ensures
            r == shade(self@, s as int, c as int),
    {
        if s == self.cursor_step && c == self.cursor_ch {
            return Shade::Cursor;
        }
        if self.mode == Mode::Visual && self.anchor.is_some() {
            let b: Area = self.selection();
            if b.s0 <= s && s < b.s1 && b.c0 <= c && c < b.c1 {
                return Shade::Selection;
            }
        }
        if self.playing && s == self.play_step {
            Shade::Playhead
        } else if c == self.cursor_ch {
            Shade::Column
        } else {
            Shade::Plain
        }
    }

    pub fn channel_lit(&self, c: usize) -> (r: bool)
        requires
            editor::valid(self@),
            c < CHANNELS,
        ensures
            r == is_lit(self@, c as int),
    {
        self.playing && self.phrase().at(self.play_step, c).note.is_some()
    }
}

// ---------------------------------------------------------------- title and status

/// The name of a file without its directories; a path that ends in none is
/// shown whole.
pub open spec fn file_label(p: Option<Seq<char>>) -> Seq<char> {
    match p {
        None => "[no name]"@,
        Some(p) => {
            let name = text::last_component(p.take(text::path_end(p) as int));
            if name.len() == 0 || name == "."@ || name == ".."@ {
                p
            } else {
                name
            }
        },
    }
}

/// The line over the phrase.
pub open spec fn title_text(e: EditorView) -> Seq<char> {
    let x = editor::under(e);
    " "@ + file_label(e.file) + (if e.dirty {
        " [+]"@
    } else {
        ""@
    }) + "   PHRASE "@ + text::hex2(e.song.current_phrase as nat) + "/"@ + text::hex2(
        (e.song.phrases.len() - 1) as nat,
    ) + "   "@ + status::channel_label(e.cursor_ch as int) + " i"@ + instr_column(x) + " v"@ + (
    if x.note is Some {
        text::hex2(x.vol as nat)
    } else {
        "--"@
    }) + "   "@ + text::dec(e.song.bpm as nat) + " BPM   "@ + (if e.playing {
        "● PLAY "@
    } else {
        "■ STOP "@
    })
}

pub open spec fn mode_name(m: Mode) -> Seq<char> {
    match m {
        Mode::Normal => "NORMAL"@,
        Mode::Insert => "INSERT"@,
        Mode::Visual => "VISUAL"@,
        Mode::Command => "COMMAND"@,
        Mode::Help => "HELP"@,
        Mode::Instrument => "INSTR"@,
        Mode::Live => "LIVE"@,
    }
}

/// The keys of a sequence that is not finished.
pub open spec fn pending_text(p: Pending) -> Seq<char> {
    match p {
        Pending::Nothing => Seq::empty(),
        Pending::Z => seq!['Z'],
        Pending::Op(op) => seq![keys::op_key(op)],
        Pending::OpScope(op, c) => seq![keys::op_key(op), c],
        Pending::Replace => seq!['r'],
    }
}

/// The line under the status: the command typed, or the keys of a sequence
/// that is not finished.
pub open spec fn typed_text(e: EditorView) -> Seq<char> {
    if e.mode == Mode::Command {
        ":"@ + e.command
    } else {
        (if e.count > 0 {
            text::dec(e.count as nat)
        } else {
            Seq::empty()
        }) + pending_text(e.pending)
    }
}

/// The badge that names the armed channels.
pub open spec fn rec_badge(e: EditorView) -> Option<Seq<char>> {
    if editor::any_armed(e) {
        Some(" ● REC "@ + keys::armed_text(e.recording, CHANNELS as nat) + " "@)
    } else {
        None
    }
}

impl Mode {
    pub fn name(&self) -> (r: &'static str)
        ensures
            r@ == mode_name(*self),
    {
        match *self {
            Mode::Normal => "NORMAL",
            Mode::Insert => "INSERT",
            Mode::Visual => "VISUAL",
            Mode::Command => "COMMAND",
            Mode::Help => "HELP",
            Mode::Instrument => "INSTR",
            Mode::Live => "LIVE",
        }
    }
}

fn put_pending(out: &mut Vec<char>, p: Pending)
    ensures
        final(out)@ == old(out)@ + pending_text(p),
{
    let ghost before = out@;
    match p {
        Pending::Nothing => {},
        Pending::Z => out.push('Z'),
        Pending::Op(op) => out.push(own_key(op)),
        Pending::OpScope(op, c) => {
            out.push(own_key(op));
            out.push(c);
        },
        Pending::Replace => out.push('r'),
    }
    assert(out@ =~= before + pending_text(p));
}

fn own_key(op: Operator) -> (r: char)
    ensures
        r == keys::op_key(op),
{
    match op {
        Operator::Delete => 'd',
        Operator::Yank => 'y',
        Operator::Change => 'c',
    }
}

impl Editor {
    fn put_file_label(&self, out: &mut Vec<char>)
        ensures
            final(out)@ == old(out)@ + file_label(self@.file),
    {
        match &self.file {
            None => text::put_str(out, "[no name]"),
            Some(p) => {
                let name: &[char] = text::file_part(p.as_slice());
                if name.len() == 0 || text::is_lit(name, ".") || text::is_lit(name, "..") {
                    text::put(out, p.as_slice());
                } else {
                    text::put(out, name);
                }
            },
        }
    }

    /// The line over the phrase.
    pub fn title(&self) -> (r: String)
        requires
            editor::valid(self@),
        ensures
            r@ == title_text(self@),
    {
        let x: Cell = self.cell_under();
        assert(self@.song.phrases.len() == self.song.phrases@.len());
        let mut t: Vec<char> = Vec::new();
        text::put_str(&mut t, " ");
        assert(t@ =~= " "@);
        self.put_file_label(&mut t);
        text::put_str(
            &mut t,
            if self.dirty {
                " [+]"
            } else {
                ""
            },
        );
        text::put_str(&mut t, "   PHRASE ");
        text::put_hex2(&mut t, self.song.current_phrase as u64);
        text::put_str(&mut t, "/");
        text::put_hex2(&mut t, (self.song.phrases.len() - 1) as u64);
        text::put_str(&mut t, "   ");
        text::put_str(&mut t, status::channel_name(self.cursor_ch));
        text::put_str(&mut t, " i");
        if x.note.is_some() {
            text::put_hex2(&mut t, x.instr as u64);
        } else {
            text::put_str(&mut t, "--");
        }
        text::put_str(&mut t, " v");
        if x.note.is_some() {
            text::put_hex2(&mut t, x.vol as u64);
        } else {
            text::put_str(&mut t, "--");
        }
        text::put_str(&mut t, "   ");
        text::put_dec(&mut t, self.song.bpm as u64);
        text::put_str(&mut t, " BPM   ");
        text::put_str(
            &mut t,
            if self.playing {
                "● PLAY "
            } else {
                "■ STOP "
            },
        );
        text::string_of(t.as_slice())
    }

    /// What the status line says.
    pub fn status_line(&self) -> (r: String)
        ensures
            r@ == status::status_text(self@.status, self@.word),
    {
        self.status.text(self.word.as_slice())
    }

    /// The line under the status.
    pub fn typed_line(&self) -> (r: String)
        ensures
            r@ == typed_text(self@),
    {
        let mut t: Vec<char> = Vec::new();
        if self.mode == Mode::Command {
            text::put_str(&mut t, ":");
            text::put(&mut t, self.command.as_slice());
            assert(t@ =~= typed_text(self@));
        } else {
            if self.count > 0 {
                text::put_dec(&mut t, self.count as u64);
            }
            put_pending(&mut t, self.pending);
            assert(t@ =~= typed_text(self@));
        }
        text::string_of(t.as_slice())
    }

    /// The badge that names the armed channels.
    pub fn badge(&self) -> (r: Option<String>)
        ensures
            match r {
                Some(t) => rec_badge(self@) == Some(t@),
                None => rec_badge(self@) is None,
            },
    {
        if !self.any_recording() {
            return None;
        }
        let mut t: Vec<char> = Vec::new();
        text::put_str(&mut t, " ● REC ");
        let names: Vec<char> = self.armed_names();
        text::put(&mut t, names.as_slice());
        text::put_str(&mut t, " ");
        assert(t@ =~= rec_badge(self@)->0);
        Some(text::string_of(t.as_slice()))
    }
}

} // verus!
