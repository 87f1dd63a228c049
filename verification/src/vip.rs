//! The `.vip` song format: plain text, line oriented, whitespace tolerant.
//!
//! Directives begin with `@` (`@song`, `@phrase`, `@instr`, ...). Data rows
//! start with a two-digit hex step followed by one cell per channel. A cell
//! is `---` (empty), `===` (hold) or `NOTE[:INSTR[:VOL[:FX]]]`, where NOTE is
//! three characters (letter, accidental `-` or `#`, octave digit).

use vstd::prelude::*;

use crate::song;
use crate::song::Cell;
use crate::text;

pub mod layout;
pub mod quote;
pub mod reader;
pub mod round_trip;
pub mod words;
pub mod writer;

pub use self::reader::from_vip;
pub use self::writer::to_vip;

verus! {

// ---------------------------------------------------------------- notes

/// The letter of a pitch class.
pub open spec fn pitch_letter(pc: int) -> char {
    if pc < 2 {
        'C'
    } else if pc < 4 {
        'D'
    } else if pc < 5 {
        'E'
    } else if pc < 7 {
        'F'
    } else if pc < 9 {
        'G'
    } else if pc < 11 {
        'A'
    } else {
        'B'
    }
}

/// Whether a pitch class is written with a sharp.
pub open spec fn is_sharp(pc: int) -> bool {
    pc == 1 || pc == 3 || pc == 6 || pc == 8 || pc == 10
}

/// The octave digit of a note; octaves that can be written are 0 to 9.
pub open spec fn note_octave(n: u8) -> nat {
    if n < 12 {
        0
    } else if n >= 132 {
        9
    } else {
        (n / 12 - 1) as nat
    }
}

/// Letter, accidental and octave of a note.
pub open spec fn note_text(n: u8) -> Seq<char> {
    seq![
        pitch_letter(n as int % 12),
        if is_sharp(n as int % 12) {
            '#'
        } else {
            '-'
        },
        text::digit_char(note_octave(n)),
    ]
}

/// The pitch class of a note letter.
pub open spec fn letter_pitch(c: char) -> Option<int> {
    let u = text::up(c);
    if u == 'C' {
        Some(0)
    } else if u == 'D' {
        Some(2)
    } else if u == 'E' {
        Some(4)
    } else if u == 'F' {
        Some(5)
    } else if u == 'G' {
        Some(7)
    } else if u == 'A' {
        Some(9)
    } else if u == 'B' {
        Some(11)
    } else {
        None
    }
}

/// The note a text names: three characters, within the MIDI range.
pub open spec fn parse_note(s: Seq<char>) -> Option<u8> {
    if s.len() != 3 || letter_pitch(s[0]) is None || (s[1] != '-' && s[1] != '#')
        || !text::is_digit(s[2]) {
        None
    } else {
        let midi = 12 * (text::digit_value(s[2]) + 1) + letter_pitch(s[0])->0 + (if s[1] == '#' {
            1int
        } else {
            0int
        });
        if midi <= 127 {
            Some(midi as u8)
        } else {
            None
        }
    }
}

pub open spec fn key_text(pc: int) -> Seq<char> {
    if pc == 0 {
        "C"@
    } else if pc == 1 {
        "C#"@
    } else if pc == 2 {
        "D"@
    } else if pc == 3 {
        "D#"@
    } else if pc == 4 {
        "E"@
    } else if pc == 5 {
        "F"@
    } else if pc == 6 {
        "F#"@
    } else if pc == 7 {
        "G"@
    } else if pc == 8 {
        "G#"@
    } else if pc == 9 {
        "A"@
    } else if pc == 10 {
        "A#"@
    } else {
        "B"@
    }
}

/// Pitch-class name for headers and reports, with sharps.
pub fn key_name(pc: u8) -> (r: &'static str)
    ensures
        r@ == key_text(pc as int % 12),
{
    match pc % 12 {
        0 => "C",
        1 => "C#",
        2 => "D",
        3 => "D#",
        4 => "E",
        5 => "F",
        6 => "F#",
        7 => "G",
        8 => "G#",
        9 => "A",
        10 => "A#",
        _ => "B",
    }
}

/// The letter of a pitch class.
pub fn letter_of(pc: u8) -> (r: char)
    requires
        pc < 12,
    ensures
        r == pitch_letter(pc as int),
{
    if pc < 2 {
        'C'
    } else if pc < 4 {
        'D'
    } else if pc < 5 {
        'E'
    } else if pc < 7 {
        'F'
    } else if pc < 9 {
        'G'
    } else if pc < 11 {
        'A'
    } else {
        'B'
    }
}

pub fn has_sharp(pc: u8) -> (r: bool)
    ensures
        r == is_sharp(pc as int),
{
    pc == 1 || pc == 3 || pc == 6 || pc == 8 || pc == 10
}

pub fn put_note(out: &mut Vec<char>, n: u8)
    ensures
        final(out)@ == old(out)@ + note_text(n),
{
    let ghost start = out@;
    let pc: u8 = n % 12;
    let octave: u8 = if n < 12 {
        0
    } else if n >= 132 {
        9
    } else {
        n / 12 - 1
    };
    out.push(letter_of(pc));
    out.push(
        if has_sharp(pc) {
            '#'
        } else {
            '-'
        },
    );
    out.push(text::char_for(octave as u128));
    assert(out@ =~= start + note_text(n));
}

/// The text of a note.
pub fn encode_note(n: u8) -> (r: String)
    ensures
        r@ == note_text(n),
{
    let mut out: Vec<char> = Vec::new();
    put_note(&mut out, n);
    text::string_of(out.as_slice())
}

pub fn read_note(s: &[char]) -> (r: Option<u8>)
    ensures
        r == parse_note(s@),
{
    if s.len() != 3 {
        return None;
    }
    let pc: u32 = match text::to_upper(s[0]) {
        'C' => 0,
        'D' => 2,
        'E' => 4,
        'F' => 5,
        'G' => 7,
        'A' => 9,
        'B' => 11,
        _ => {
            return None;
        },
    };
    let sharp: u32 = match s[1] {
        '-' => 0,
        '#' => 1,
        _ => {
            return None;
        },
    };
    let d: u32 = text::digit_of(s[2]);
    if !('0' <= s[2] && s[2] <= '9') {
        return None;
    }
    let midi: u32 = 12 * (d + 1) + pc + sharp;
    if midi <= 127 {
        Some(midi as u8)
    } else {
        None
    }
}

/// The note a text names.
pub fn decode_note(s: &str) -> (r: Option<u8>)
    ensures
        r == parse_note(s@),
{
    let v: Vec<char> = text::chars_of(s);
    read_note(v.as_slice())
}

pub fn decode_note_pub(s: &str) -> (r: Option<u8>)
    ensures
        r == parse_note(s@),
{
    decode_note(s)
}

/// Every note that can be written reads back as itself.
pub proof fn law_note_round_trip(n: u8)
    requires
        12 <= n <= 127,
    ensures
        parse_note(note_text(n)) == Some(n),
{
    text::lemma_digit_char(note_octave(n));
    let pc = n as int % 12;
    assert(0 <= pc < 12);
    assert(n as int == 12 * (n as int / 12) + pc);
}

// ---------------------------------------------------------------- cells

/// What is wrong with a cell's text.
#[derive(Clone, Copy, Debug, PartialEq, Eq, Structural)]
pub enum CellFault {
    Note,
    Instrument,
    Volume,
    /// The effect is not three characters long.
    FxLength,
    /// The effect's command is not a letter or digit.
    FxCommand,
    /// The effect's parameter is not two hex digits.
    FxParam,
}

/// The text of a cell.
pub open spec fn cell_text(c: Cell) -> Seq<char> {
    if c.hold {
        "==="@
    } else {
        match c.note {
            None => "---"@,
            Some(n) => note_text(n) + seq![':'] + text::hex2(c.instr as nat) + seq![':']
                + text::hex2(c.vol as nat) + (match c.fx {
                None => Seq::empty(),
                Some((cmd, param)) => seq![':', cmd as char] + text::hex2(param as nat),
            }),
        }
    }
}

/// The effect a field holds; `---` and the empty field hold none.
pub open spec fn parse_fx(s: Seq<char>) -> Result<Option<(u8, u8)>, CellFault> {
    if s == "---"@ || s.len() == 0 {
        Ok(None)
    } else if text::byte_len(s) != 3 {
        Err(CellFault::FxLength)
    } else if !text::is_alnum(s[0]) {
        Err(CellFault::FxCommand)
    } else {
        match text::hex_byte(s.skip(1)) {
            Some(p) => Ok(Some((s[0] as u8, p))),
            None => Err(CellFault::FxParam),
        }
    }
}

/// A hex field of a cell; a missing one is zero.
pub open spec fn hex_field(p: Seq<Seq<char>>, i: int) -> Option<nat> {
    if i < p.len() {
        text::parse_uint(p[i], 16, 255)
    } else {
        Some(0)
    }
}

/// The cell a text stands for.
pub open spec fn parse_cell(s: Seq<char>) -> Result<Cell, CellFault> {
    if s == "---"@ || s.len() == 0 {
        Ok(song::empty_cell())
    } else if s == "==="@ || (s.len() >= 4 && s.take(4) == "===:"@) {
        Ok(song::hold_cell())
    } else {
        let p = text::pieces(s, ':');
        match parse_note(p[0]) {
            None => Err(CellFault::Note),
            Some(note) => match hex_field(p, 1) {
                None => Err(CellFault::Instrument),
                Some(instr) => match hex_field(p, 2) {
                    None => Err(CellFault::Volume),
                    Some(vol) => match (if 3 < p.len() {
                        parse_fx(p[3])
                    } else {
                        Ok(None)
                    }) {
                        Err(e) => Err(e),
                        Ok(fx) => Ok(
                            Cell {
                                note: Some(note),
                                instr: instr as u8,
                                vol: vol as u8,
                                fx,
                                hold: false,
                            },
                        ),
                    },
                },
            },
        }
    }
}

pub fn put_cell_text(out: &mut Vec<char>, c: Cell)
    ensures
        final(out)@ == old(out)@ + cell_text(c),
{
    let ghost start = out@;
    if c.hold {
        text::put_str(out, "===");
        return;
    }
    match c.note {
        None => {
            text::put_str(out, "---");
        },
        Some(n) => {
            put_note(out, n);
            out.push(':');
            text::put_hex2(out, c.instr as u64);
            out.push(':');
            text::put_hex2(out, c.vol as u64);
            match c.fx {
                None => {},
                Some((cmd, param)) => {
                    out.push(':');
                    out.push(cmd as char);
                    text::put_hex2(out, param as u64);
                },
            }
            assert(out@ =~= start + cell_text(c));
        },
    }
}

/// The text of a cell.
pub fn encode_cell(c: Cell) -> (r: String)
    ensures
        r@ == cell_text(c),
{
    let mut out: Vec<char> = Vec::new();
    put_cell_text(&mut out, c);
    text::string_of(out.as_slice())
}

fn read_fx(s: &[char]) -> (r: Result<Option<(u8, u8)>, CellFault>)
    ensures
        r == parse_fx(s@),
{
    if s.len() == 0 || text::is_lit(s, "---") {
        return Ok(None);
    }
    if !text::has_byte_len(s, 3) {
        return Err(CellFault::FxLength);
    }
    let c: char = s[0];
    if !(('A' <= c && c <= 'Z') || ('a' <= c && c <= 'z') || ('0' <= c && c <= '9')) {
        return Err(CellFault::FxCommand);
    }
    match text::read_hex_byte(text::tail(s, 1)) {
        Some(p) => Ok(Some((c as u8, p))),
        None => Err(CellFault::FxParam),
    }
}

fn read_hex_field(p: &Vec<&[char]>, i: usize) -> (r: Option<u8>)
    ensures
        match r {
            Some(v) => hex_field(text::views(p@), i as int) == Some(v as nat),
            None => hex_field(text::views(p@), i as int) is None,
        },
{
    if i < p.len() {
        match text::read_uint(p[i], 16, 255) {
            Some(v) => Some(v as u8),
            None => None,
        }
    } else {
        Some(0)
    }
}

pub fn read_cell(s: &[char]) -> (r: Result<Cell, CellFault>)
    ensures
        r == parse_cell(s@),
{
    if s.len() == 0 || text::is_lit(s, "---") {
        return Ok(Cell::default());
    }
    if text::is_lit(s, "===") || (s.len() >= 4 && text::is_lit(text::head(s, 4), "===:")) {
        return Ok(Cell::hold());
    }
    let p: Vec<&[char]> = text::split_on(s, ':');
    assert(text::views(p@)[0] == p@[0]@);
    let note: u8 = match read_note(p[0]) {
        Some(n) => n,
        None => {
            return Err(CellFault::Note);
        },
    };
    let instr: u8 = match read_hex_field(&p, 1) {
        Some(v) => v,
        None => {
            return Err(CellFault::Instrument);
        },
    };
    let vol: u8 = match read_hex_field(&p, 2) {
        Some(v) => v,
        None => {
            return Err(CellFault::Volume);
        },
    };
    let fx: Option<(u8, u8)> = if p.len() > 3 {
        match read_fx(p[3]) {
            Ok(fx) => fx,
            Err(e) => {
                return Err(e);
            },
        }
    } else {
        None
    };
    Ok(Cell { note: Some(note), instr, vol, fx, hold: false })
}

/// The cell a text stands for.
pub fn decode_cell(s: &str) -> (r: Result<Cell, CellFault>)
    ensures
        r == parse_cell(s@),
{
    let v: Vec<char> = text::chars_of(s);
    read_cell(v.as_slice())
}

/// A cell whose text says everything about it: empty, a bare hold, or a
/// note that can be written, with an effect named by a letter or digit.
pub open spec fn writable_cell(c: Cell) -> bool {
    match c.note {
        None => c == song::empty_cell() || c == song::hold_cell(),
        Some(n) => 12 <= n <= 127 && !c.hold && (match c.fx {
            Some((cmd, _)) => text::is_alnum(cmd as char),
            None => true,
        }),
    }
}

/// What the text of a writable cell looks like: a word that does not start a
/// comment or a directive.
pub open spec fn is_cell_word(w: Seq<char>) -> bool {
    &&& 3 <= w.len() <= 13
    &&& w[0] != '#'
    &&& forall|i: int| 0 <= i < w.len() ==> !text::is_ws(#[trigger] w[i])
}

pub proof fn lemma_pieces_step(a: Seq<char>, b: Seq<char>, c: char)
    requires
        forall|i: int| 0 <= i < a.len() ==> #[trigger] a[i] != c,
    ensures
        text::pieces(a + seq![c] + b, c) == seq![a] + text::pieces(b, c),
{
    let s = a + seq![c] + b;
    assert forall|i: int| 0 <= i < a.len() implies #[trigger] s[i] != c by {
        assert(s[i] == a[i]);
    }
    text::lemma_char_index_is(s, c, a.len() as int);
    assert(s.take(a.len() as int) =~= a);
    assert(s.skip((a.len() + 1) as int) =~= b);
}

pub proof fn lemma_pieces_last(a: Seq<char>, c: char)
    requires
        forall|i: int| 0 <= i < a.len() ==> #[trigger] a[i] != c,
    ensures
        text::pieces(a, c) == seq![a],
{
    text::lemma_char_index_is(a, c, a.len() as int);
}

/// A writable cell reads back from its text as itself.
pub proof fn law_cell_round_trip(c: Cell)
    requires
        writable_cell(c),
    ensures
        parse_cell(cell_text(c)) == Ok::<Cell, CellFault>(c),
        is_cell_word(cell_text(c)),
{
    reveal_strlit("---");
    reveal_strlit("===");
    reveal_strlit("===:");
    let s = cell_text(c);
    if let Some(n) = c.note {
        law_note_round_trip(n);
        text::lemma_hex2(c.instr as nat, 255);
        text::lemma_hex2(c.vol as nat, 255);
        let a = note_text(n);
        text::lemma_digit_char(note_octave(n));
        let i = text::hex2(c.instr as nat);
        let v = text::hex2(c.vol as nat);
        assert(s[0] == a[0] && s[1] == a[1] && s[2] == a[2]);
        assert(s.take(4)[0] == a[0]);
        match c.fx {
            None => {
                assert(s =~= a + seq![':'] + (i + seq![':'] + v));
                lemma_pieces_step(a, i + seq![':'] + v, ':');
                lemma_pieces_step(i, v, ':');
                lemma_pieces_last(v, ':');
                assert(text::pieces(s, ':') =~= seq![a, i, v]);
                assert forall|k: int| 0 <= k < s.len() implies !text::is_ws(#[trigger] s[k]) by {
                    if 4 <= k < 6 {
                        assert(s[k] == i[k - 4]);
                    } else if 7 <= k < 9 {
                        assert(s[k] == v[k - 7]);
                    }
                }
            },
            Some((cmd, param)) => {
                text::lemma_hex2(param as nat, 255);
                let h = text::hex2(param as nat);
                let f = seq![cmd as char] + h;
                assert(s =~= a + seq![':'] + (i + seq![':'] + (v + seq![':'] + f)));
                lemma_pieces_step(a, i + seq![':'] + (v + seq![':'] + f), ':');
                lemma_pieces_step(i, v + seq![':'] + f, ':');
                lemma_pieces_step(v, f, ':');
                assert forall|k: int| 0 <= k < f.len() implies #[trigger] f[k] != ':' && (f[k] as u32)
                    < 0x80 by {
                    if k > 0 {
                        assert(f[k] == h[k - 1]);
                    }
                }
                lemma_pieces_last(f, ':');
                assert(text::pieces(s, ':') =~= seq![a, i, v, f]);
                text::lemma_byte_len(f);
                assert(f.skip(1) =~= h);
                assert forall|k: int| 0 <= k < s.len() implies !text::is_ws(#[trigger] s[k]) by {
                    if 4 <= k < 6 {
                        assert(s[k] == i[k - 4]);
                    } else if 7 <= k < 9 {
                        assert(s[k] == v[k - 7]);
                    } else if 10 <= k {
                        assert(s[k] == f[k - 10]);
                    }
                }
            },
        }
    }
}

// ---------------------------------------------------------------- swing

/// Every off-sixteenth lands `n` samples late and every on-sixteenth as much
/// early. The one value without a negative stays as it is.
pub open spec fn swing(n: i16) -> Seq<i16> {
    Seq::new(
        16,
        |i: int|
            if i % 2 == 0 && n > i16::MIN {
                (-n) as i16
            } else {
                n
            },
    )
}

/// A swing groove: the bar keeps its length.
pub fn swing_groove(n: i16) -> (g: [i16; 16])
    ensures
        g@ == swing(n),
{
    let early: i16 = if n == i16::MIN {
        n
    } else {
        -n
    };
    let g: [i16; 16] = [
        early, n, early, n, early, n, early, n, early, n, early, n, early, n, early, n,
    ];
    assert(g@ =~= swing(n));
    g
}

/// How far the first `k` steps of a groove shift the beat, in samples.
pub open spec fn groove_sum(g: Seq<i16>, k: nat) -> int
    decreases k,
{
    if k == 0 {
        0
    } else {
        groove_sum(g, (k - 1) as nat) + g[k - 1]
    }
}

/// Swing leaves the length of the bar exactly as it was.
pub proof fn law_swing_keeps_the_bar(n: i16)
    requires
        n > i16::MIN,
    ensures
        groove_sum(swing(n), 16) == 0,
{
    reveal_with_fuel(groove_sum, 17);
}

} // verus!
