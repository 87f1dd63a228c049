//! What is wrong with a `.vip` text, in words: the line, what it is about, and
//! the word that is at fault.

use vstd::prelude::*;

use crate::song;
use crate::text;
use crate::vip::quote;
use crate::vip::reader;
use crate::vip::reader::{Fault, VipError};
use crate::vip::CellFault;

verus! {

/// A line of a text, without its comment and the blanks around it.
pub open spec fn line_of(t: Seq<char>, n: nat) -> Seq<char> {
    let ls = text::lines(t);
    if 1 <= n <= ls.len() {
        text::trim(text::uncomment(ls[n - 1]))
    } else {
        Seq::empty()
    }
}

/// What a line's directive is given.
pub open spec fn args_of(l: Seq<char>) -> Seq<char> {
    if l.len() == 0 {
        l
    } else {
        text::first_word(l.skip(1)).1
    }
}

/// The word at a place, or nothing.
pub open spec fn word_at(ws: Seq<Seq<char>>, i: int) -> Seq<char> {
    if 0 <= i < ws.len() {
        ws[i]
    } else {
        Seq::empty()
    }
}

/// A hexadecimal number, or zero.
pub open spec fn number_of(w: Seq<char>) -> nat {
    match text::parse_uint(w, 16, usize::MAX as nat) {
        Some(n) => n,
        None => 0,
    }
}

/// The first word from `i` on that is no hexadecimal byte.
pub open spec fn bad_byte(ws: Seq<Seq<char>>, i: nat) -> Seq<char>
    decreases ws.len() - i,
{
    if i >= ws.len() {
        Seq::empty()
    } else if text::parse_uint(ws[i as int], 16, 255) is None {
        ws[i as int]
    } else {
        bad_byte(ws, i + 1)
    }
}

/// The first word from `i` on that is no groove value.
pub open spec fn bad_groove(ws: Seq<Seq<char>>, i: nat) -> Seq<char>
    decreases ws.len() - i,
{
    if i >= ws.len() {
        Seq::empty()
    } else if text::parse_int(ws[i as int], 32768, 32767) is None {
        ws[i as int]
    } else {
        bad_groove(ws, i + 1)
    }
}

/// The first pair from `i` on that gives no channel a length.
pub open spec fn bad_length(ws: Seq<Seq<char>>, i: nat) -> (Seq<char>, Seq<char>)
    decreases ws.len() - i,
{
    if i >= ws.len() {
        (Seq::empty(), Seq::empty())
    } else {
        match text::cut_word(ws[i as int]) {
            Some((k, v)) => match text::parse_uint(v, 10, 255) {
                Some(n) => if n == 0 || n > 16 || reader::length_channel(k) is None {
                    (k, v)
                } else {
                    bad_length(ws, i + 1)
                },
                None => (k, v),
            },
            None => bad_length(ws, i + 1),
        }
    }
}

/// A length as a number.
pub open spec fn length_of(v: Seq<char>) -> nat {
    match text::parse_uint(v, 10, 255) {
        Some(n) => n,
        None => 0,
    }
}

/// The name of the first field from `i` on that an instrument cannot have.
pub open spec fn bad_field(ws: Seq<Seq<char>>, i: nat) -> Seq<char>
    decreases ws.len() - i,
{
    if i >= ws.len() {
        Seq::empty()
    } else {
        match text::cut_word(ws[i as int]) {
            Some((k, _)) => if reader::instr_word(song::default_instrument(), ws[i as int]) is Err {
                k
            } else {
                bad_field(ws, i + 1)
            },
            None => bad_field(ws, i + 1),
        }
    }
}

/// The first rate from `i` on that is none of a sample's.
pub open spec fn bad_rate(ps: Seq<(Seq<char>, Seq<char>)>, i: nat) -> nat
    decreases ps.len() - i,
{
    if i >= ps.len() {
        0
    } else {
        let (k, v) = ps[i as int];
        match text::parse_uint(v, 10, 255) {
            Some(n) => if k == "rate"@ && n > 15 {
                n
            } else {
                bad_rate(ps, i + 1)
            },
            None => bad_rate(ps, i + 1),
        }
    }
}

/// A field of a cell.
pub open spec fn cell_field(w: Seq<char>, i: int) -> Seq<char> {
    word_at(text::pieces(w, ':'), i)
}

/// What is wrong with a cell.
pub open spec fn cell_words(w: Seq<char>, f: CellFault) -> Seq<char> {
    match f {
        CellFault::Note => "bad note "@ + text::debug_text(cell_field(w, 0)),
        CellFault::Instrument => "instr field"@,
        CellFault::Volume => "vol field"@,
        CellFault::FxLength => "fx field must be 3 chars, got "@ + text::debug_text(
            cell_field(w, 3),
        ),
        CellFault::FxCommand => "fx command must be A-Z or 0-9, got "@ + (if cell_field(
            w,
            3,
        ).len() > 0 {
            text::debug_char_text(text::lead(cell_field(w, 3)[0]))
        } else {
            Seq::empty()
        }),
        CellFault::FxParam => "fx param"@,
    }
}

/// What is wrong with a line of plain settings.
pub open spec fn plain_words(f: Fault) -> Seq<char> {
    match f {
        Fault::Bpm => "@song: bpm"@,
        Fault::EditStep => "@song: edit_step"@,
        Fault::Current => "@song: current"@,
        Fault::OrderEntry => "@song: order entry"@,
        Fault::Loop => "@song: loop"@,
        Fault::PhraseIndexMissing => "@phrase: missing phrase index"@,
        Fault::PhraseIndex => "@phrase: phrase index"@,
        Fault::ChainIndex => "@chain: chain index"@,
        Fault::ArrangementLoop => "@arrangement loop"@,
        Fault::GrooveSwing => "@groove swing"@,
        Fault::InstrumentIndex => "@instr: instrument index"@,
        Fault::SampleIndex => "@dpcm: sample index"@,
        Fault::SampleRate => "@dpcm: rate"@,
        Fault::SamplePathMissing => "@dpcm: @dpcm needs path="@,
        Fault::RowEmpty => "empty row"@,
        Fault::RowStep => "step"@,
        Fault::GrooveTooLong => "@groove has more than 16 values"@,
        Fault::NoSection =>
            "data row appears before any @phrase / @chain / @arrangement / @groove directive"@,
        _ => ""@,
    }
}

/// What is wrong with a line.
pub open spec fn line_words(f: Fault, l: Seq<char>) -> Seq<char> {
    let args = args_of(l);
    match f {
        Fault::LengthValue => "@length: length "@ + bad_length(text::words(args), 0).0 + "="@
            + bad_length(text::words(args), 0).1,
        Fault::LengthRange => "@length: length "@ + bad_length(text::words(args), 0).0 + "="@
            + text::dec(length_of(bad_length(text::words(args), 0).1)) + " out of range (1..=16)"@,
        Fault::LengthChannel => "@length: length: unknown channel "@ + text::debug_text(
            bad_length(text::words(args), 0).0,
        ),
        Fault::InstrumentRange => "@instr: instrument "@ + text::numeral(
            number_of(text::first_word(args).0),
            16,
        ) + " out of range (max F)"@,
        Fault::InstrumentField => "@instr: "@ + bad_field(
            text::words(text::first_word(args).1),
            0,
        ),
        Fault::SampleRange => "@dpcm: sample index "@ + text::numeral(
            number_of(text::first_word(args).0),
            16,
        ) + " out of range (max 3F)"@,
        Fault::SampleRateRange => "@dpcm: rate "@ + text::dec(
            bad_rate(quote::pairs(text::first_word(args).1), 0),
        ) + " out of range 0..=15"@,
        Fault::RowStepRange => "step "@ + text::numeral(number_of(word_at(text::words(l), 0)), 16)
            + " out of range"@,
        Fault::RowCell(ch, c) => "ch"@ + text::dec((ch + 1) as nat) + ": "@ + cell_words(
            word_at(text::words(l), ch + 1),
            c,
        ),
        Fault::ChainPhrase => "chain phrase "@ + text::debug_text(bad_byte(text::words(l), 0)),
        Fault::ArrangementChain => "arrangement chain "@ + text::debug_text(
            bad_byte(text::words(l), 0),
        ),
        Fault::GrooveValue => "groove value "@ + text::debug_text(bad_groove(text::words(l), 0)),
        _ => plain_words(f),
    }
}

/// What is said of a text that is no song.
pub open spec fn told(t: Seq<char>, e: VipError) -> Seq<char> {
    "line "@ + text::dec(e.line as nat) + ": "@ + line_words(e.fault, line_of(t, e.line as nat))
}

// ---------------------------------------------------------------- searching

fn find_bad_byte(ws: &Vec<&[char]>) -> (r: Vec<char>)
    ensures
        r@ == bad_byte(text::views(ws@), 0),
{
    let ghost all = text::views(ws@);
    assert(all.len() == ws@.len());
    let mut i: usize = 0;
    while i < ws.len()
        invariant
            i <= ws@.len(),
            all == text::views(ws@),
            all.len() == ws@.len(),
            bad_byte(all, 0) == bad_byte(all, i as nat),
        decreases ws@.len() - i,
    {
        assert(all[i as int] == ws@[i as int]@);
        if text::read_uint(ws[i], 16, 255).is_none() {
            return text::copy_of(ws[i]);
        }
        i += 1;
    }
    Vec::new()
}

fn find_bad_groove(ws: &Vec<&[char]>) -> (r: Vec<char>)
    ensures
        r@ == bad_groove(text::views(ws@), 0),
{
    let ghost all = text::views(ws@);
    assert(all.len() == ws@.len());
    let mut i: usize = 0;
    while i < ws.len()
        invariant
            i <= ws@.len(),
            all == text::views(ws@),
            all.len() == ws@.len(),
            bad_groove(all, 0) == bad_groove(all, i as nat),
        decreases ws@.len() - i,
    {
        assert(all[i as int] == ws@[i as int]@);
        if text::read_int(ws[i], 32768, 32767).is_none() {
            return text::copy_of(ws[i]);
        }
        i += 1;
    }
    Vec::new()
}

fn find_bad_length(ws: &Vec<&[char]>) -> (r: (Vec<char>, Vec<char>))
    ensures
        (r.0@, r.1@) == bad_length(text::views(ws@), 0),
{
    let ghost all = text::views(ws@);
    assert(all.len() == ws@.len());
    let mut i: usize = 0;
    while i < ws.len()
        invariant
            i <= ws@.len(),
            all == text::views(ws@),
            all.len() == ws@.len(),
            bad_length(all, 0) == bad_length(all, i as nat),
        decreases ws@.len() - i,
    {
        assert(all[i as int] == ws@[i as int]@);
        if let Some((k, v)) = text::split_at_eq(ws[i]) {
            let sound: bool = match text::read_uint(v, 10, 255) {
                Some(n) => n != 0 && n <= 16 && reader::find_length_channel(k).is_some(),
                None => false,
            };
            if !sound {
                return (text::copy_of(k), text::copy_of(v));
            }
        }
        i += 1;
    }
    (Vec::new(), Vec::new())
}

fn find_bad_field(ws: &Vec<&[char]>) -> (r: Vec<char>)
    ensures
        r@ == bad_field(text::views(ws@), 0),
{
    let ghost all = text::views(ws@);
    assert(all.len() == ws@.len());
    let mut i: usize = 0;
    while i < ws.len()
        invariant
            i <= ws@.len(),
            all == text::views(ws@),
            all.len() == ws@.len(),
            bad_field(all, 0) == bad_field(all, i as nat),
        decreases ws@.len() - i,
    {
        assert(all[i as int] == ws@[i as int]@);
        if let Some((k, _)) = text::split_at_eq(ws[i]) {
            if reader::read_instr_word(song::Instrument::default(), ws[i]).is_err() {
                return text::copy_of(k);
            }
        }
        i += 1;
    }
    Vec::new()
}

fn find_bad_rate(args: &[char]) -> (r: u64)
    ensures
        r == bad_rate(quote::pairs(args@), 0),
{
    let ps: Vec<(Vec<char>, Vec<char>)> = quote::kv_quoted(args);
    let ghost all = quote::pairs(args@);
    assert(all.len() == ps@.len());
    let mut i: usize = 0;
    while i < ps.len()
        invariant
            i <= ps@.len(),
            all == quote::pairs(args@),
            all == quote::pair_views(ps@),
            all.len() == ps@.len(),
            bad_rate(all, 0) == bad_rate(all, i as nat),
        decreases ps@.len() - i,
    {
        assert(all[i as int] == (ps@[i as int].0@, ps@[i as int].1@));
        if let Some(n) = text::read_uint(ps[i].1.as_slice(), 10, 255) {
            if text::is_lit(ps[i].0.as_slice(), "rate") && n > 15 {
                return n;
            }
        }
        i += 1;
    }
    0
}

fn copy_word(ws: &Vec<&[char]>, i: usize) -> (r: Vec<char>)
    ensures
        r@ == word_at(text::views(ws@), i as int),
{
    assert(text::views(ws@).len() == ws@.len());
    if i < ws.len() {
        assert(text::views(ws@)[i as int] == ws@[i as int]@);
        text::copy_of(ws[i])
    } else {
        Vec::new()
    }
}

fn find_number(w: &[char]) -> (r: u64)
    ensures
        r == number_of(w@),
{
    match text::read_uint(w, 16, usize::MAX as u64) {
        Some(n) => n,
        None => 0,
    }
}

fn copy_field(w: &Vec<char>, i: usize) -> (r: Vec<char>)
    ensures
        r@ == cell_field(w@, i as int),
{
    let ps: Vec<&[char]> = text::split_on(w.as_slice(), ':');
    copy_word(&ps, i)
}

// ---------------------------------------------------------------- writing

fn put_debug(out: &mut Vec<char>, w: &Vec<char>)
    ensures
        final(out)@ == old(out)@ + text::debug_text(w@),
{
    let q: String = text::debug_of(text::string_of(w.as_slice()).as_str());
    text::put_str(out, q.as_str());
}

fn put_hex(out: &mut Vec<char>, n: u64)
    ensures
        final(out)@ == old(out)@ + text::numeral(n as nat, 16),
{
    let v: Vec<char> = text::numeral_of(n as u128, 16);
    text::put(out, v.as_slice());
}

fn put_cell_words(out: &mut Vec<char>, w: &Vec<char>, f: CellFault)
    ensures
        final(out)@ == old(out)@ + cell_words(w@, f),
{
    let ghost start = out@;
    match f {
        CellFault::Note => {
            text::put_str(out, "bad note ");
            put_debug(out, &copy_field(w, 0));
        },
        CellFault::Instrument => {
            text::put_str(out, "instr field");
        },
        CellFault::Volume => {
            text::put_str(out, "vol field");
        },
        CellFault::FxLength => {
            text::put_str(out, "fx field must be 3 chars, got ");
            put_debug(out, &copy_field(w, 3));
        },
        CellFault::FxCommand => {
            text::put_str(out, "fx command must be A-Z or 0-9, got ");
            let v: Vec<char> = copy_field(w, 3);
            if v.len() > 0 {
                text::put_str(out, text::debug_char(text::lead_of(v[0])).as_str());
            }
        },
        CellFault::FxParam => {
            text::put_str(out, "fx param");
        },
    }
    assert(out@ =~= start + cell_words(w@, f));
}

fn find_plain(f: Fault) -> (r: &'static str)
    ensures
        r@ == plain_words(f),
{
    match f {
        Fault::Bpm => "@song: bpm",
        Fault::EditStep => "@song: edit_step",
        Fault::Current => "@song: current",
        Fault::OrderEntry => "@song: order entry",
        Fault::Loop => "@song: loop",
        Fault::PhraseIndexMissing => "@phrase: missing phrase index",
        Fault::PhraseIndex => "@phrase: phrase index",
        Fault::ChainIndex => "@chain: chain index",
        Fault::ArrangementLoop => "@arrangement loop",
        Fault::GrooveSwing => "@groove swing",
        Fault::InstrumentIndex => "@instr: instrument index",
        Fault::SampleIndex => "@dpcm: sample index",
        Fault::SampleRate => "@dpcm: rate",
        Fault::SamplePathMissing => "@dpcm: @dpcm needs path=",
        Fault::RowEmpty => "empty row",
        Fault::RowStep => "step",
        Fault::GrooveTooLong => "@groove has more than 16 values",
        Fault::NoSection =>
            "data row appears before any @phrase / @chain / @arrangement / @groove directive",
        _ => "",
    }
}

/// Whether a fault is one of a directive that names what it was given.
spec fn is_named(f: Fault) -> bool {
    f is LengthValue || f is LengthRange || f is LengthChannel || f is InstrumentRange || f
        is InstrumentField || f is SampleRange || f is SampleRateRange
}

fn put_directive_words(out: &mut Vec<char>, f: Fault, l: &[char])
    requires
        is_named(f),
    ensures
        final(out)@ == old(out)@ + line_words(f, l@),
{
    let ghost start = out@;
    let args: &[char] = if l.len() == 0 {
        l
    } else {
        text::split_first_word(text::tail(l, 1)).1
    };
    let (first, rest): (&[char], &[char]) = text::split_first_word(args);
    let ws: Vec<&[char]> = text::split_words(args);
    match f {
        Fault::LengthValue => {
            let (k, v): (Vec<char>, Vec<char>) = find_bad_length(&ws);
            text::put_str(out, "@length: length ");
            text::put(out, k.as_slice());
            text::put_str(out, "=");
            text::put(out, v.as_slice());
        },
        Fault::LengthRange => {
            let (k, v): (Vec<char>, Vec<char>) = find_bad_length(&ws);
            text::put_str(out, "@length: length ");
            text::put(out, k.as_slice());
            text::put_str(out, "=");
            text::put_dec(
                out,
                match text::read_uint(v.as_slice(), 10, 255) {
                    Some(n) => n,
                    None => 0,
                },
            );
            text::put_str(out, " out of range (1..=16)");
        },
        Fault::LengthChannel => {
            let (k, _): (Vec<char>, Vec<char>) = find_bad_length(&ws);
            text::put_str(out, "@length: length: unknown channel ");
            put_debug(out, &k);
        },
        Fault::InstrumentRange => {
            text::put_str(out, "@instr: instrument ");
            put_hex(out, find_number(first));
            text::put_str(out, " out of range (max F)");
        },
        Fault::InstrumentField => {
            let fields: Vec<&[char]> = text::split_words(rest);
            text::put_str(out, "@instr: ");
            text::put(out, find_bad_field(&fields).as_slice());
        },
        Fault::SampleRange => {
            text::put_str(out, "@dpcm: sample index ");
            put_hex(out, find_number(first));
            text::put_str(out, " out of range (max 3F)");
        },
        Fault::SampleRateRange => {
            text::put_str(out, "@dpcm: rate ");
            text::put_dec(out, find_bad_rate(rest));
            text::put_str(out, " out of range 0..=15");
        },
        _ => {},
    }
    assert(out@ =~= start + line_words(f, l@));
}

fn put_line_words(out: &mut Vec<char>, f: Fault, l: &[char])
    ensures
        final(out)@ == old(out)@ + line_words(f, l@),
{
    let ghost start = out@;
    let ws: Vec<&[char]> = text::split_words(l);
    match f {
        Fault::LengthValue
        | Fault::LengthRange
        | Fault::LengthChannel
        | Fault::InstrumentRange
        | Fault::InstrumentField
        | Fault::SampleRange
        | Fault::SampleRateRange => {
            put_directive_words(out, f, l);
        },
        Fault::RowStepRange => {
            text::put_str(out, "step ");
            put_hex(out, find_number(copy_word(&ws, 0).as_slice()));
            text::put_str(out, " out of range");
        },
        Fault::RowCell(ch, c) => {
            text::put_str(out, "ch");
            let number: Vec<char> = text::numeral_of(ch as u128 + 1, 10);
            text::put(out, number.as_slice());
            text::put_str(out, ": ");
            let n: usize = ws.len();
            let word: Vec<char> = if ch < n {
                copy_word(&ws, ch + 1)
            } else {
                Vec::new()
            };
            assert(word@ =~= word_at(text::words(l@), ch + 1));
            put_cell_words(out, &word, c);
        },
        Fault::ChainPhrase => {
            text::put_str(out, "chain phrase ");
            put_debug(out, &find_bad_byte(&ws));
        },
        Fault::ArrangementChain => {
            text::put_str(out, "arrangement chain ");
            put_debug(out, &find_bad_byte(&ws));
        },
        Fault::GrooveValue => {
            text::put_str(out, "groove value ");
            put_debug(out, &find_bad_groove(&ws));
        },
        _ => {
            text::put_str(out, find_plain(f));
        },
    }
    assert(out@ =~= start + line_words(f, l@));
}

/// Says what is wrong with a text that is no song.
pub fn explain(source: &str, e: VipError) -> (r: String)
    ensures
        r@ == told(source@, e),
{
    let chars: Vec<char> = text::chars_of(source);
    let ls: Vec<&[char]> = text::split_lines(chars.as_slice());
    let ghost all = text::lines(source@);
    assert(all == text::views(ls@));
    assert(all.len() == ls@.len());
    let none: &[char] = text::head(chars.as_slice(), 0);
    assert(none@ =~= Seq::<char>::empty());
    let l: &[char] = if 1 <= e.line && e.line <= ls.len() {
        assert(all[e.line - 1] == ls@[e.line - 1]@);
        text::trimmed(text::strip_comment(ls[e.line - 1]))
    } else {
        none
    };
    let mut m: Vec<char> = text::chars_of("line ");
    text::put_dec(&mut m, e.line as u64);
    text::put_str(&mut m, ": ");
    put_line_words(&mut m, e.fault, l);
    assert(m@ =~= told(source@, e));
    text::string_of(m.as_slice())
}

} // verus!
