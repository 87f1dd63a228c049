//! What is wrong with a style, in words: the line and its directive, and the
//! word that is at fault.

use vstd::prelude::*;

use crate::gen;
use crate::style;
use crate::style::parser;
use crate::style::parser::{StyleError, StyleFault};
use crate::style::{Section, SectionView, Style, StyleView};
use crate::text;

verus! {

/// A line's directive and what it is given.
pub open spec fn directive_of(raw: Seq<char>) -> (Seq<char>, Seq<char>) {
    let line = text::trim(text::uncomment(raw));
    if line.len() == 0 {
        (Seq::empty(), Seq::empty())
    } else {
        match parser::named_args(line.skip(1)) {
            Some(p) => p,
            None => (line.skip(1), Seq::empty()),
        }
    }
}

/// The style after the lines from `i` up to `k`, as far as they can be read.
pub open spec fn state_at(st: StyleView, ls: Seq<Seq<char>>, i: nat, k: nat) -> StyleView
    decreases k - i,
{
    if i >= k || i >= ls.len() {
        st
    } else {
        match parser::line_step(st, ls[i as int]) {
            Ok(t) => state_at(t, ls, i + 1, k),
            Err(_) => st,
        }
    }
}

/// The first word from `i` on that is no key.
pub open spec fn bad_key(ws: Seq<Seq<char>>, i: nat) -> Seq<char>
    decreases ws.len() - i,
{
    if i >= ws.len() {
        Seq::empty()
    } else if gen::key_named(ws[i as int]) is None {
        ws[i as int]
    } else {
        bad_key(ws, i + 1)
    }
}

/// The first word from `i` on that is neither a chord nor a name.
pub open spec fn bad_chord(ws: Seq<Seq<char>>, i: nat) -> Seq<char>
    decreases ws.len() - i,
{
    if i >= ws.len() {
        Seq::empty()
    } else if parser::after_name(ws[i as int]) is None && style::chord_named(ws[i as int]) is None {
        ws[i as int]
    } else {
        bad_chord(ws, i + 1)
    }
}

/// The first word from `i` on that names no scale.
pub open spec fn bad_scale(st: StyleView, ws: Seq<Seq<char>>, i: nat) -> Seq<char>
    decreases ws.len() - i,
{
    if i >= ws.len() {
        Seq::empty()
    } else if gen::mode_named(ws[i as int]) is None && !parser::has_scale(
        st.scales,
        ws[i as int],
    ) {
        ws[i as int]
    } else {
        bad_scale(st, ws, i + 1)
    }
}

/// The first name from `i` on of a section that a form lacks.
pub open spec fn bad_section(st: StyleView, f: Seq<Seq<char>>, i: nat) -> Option<Seq<char>>
    decreases f.len() - i,
{
    if i >= f.len() {
        None
    } else if !parser::has_section(st, parser::transposed(f[i as int]).0) {
        Some(parser::transposed(f[i as int]).0)
    } else {
        bad_section(st, f, i + 1)
    }
}

/// The first missing section of the forms from `i` on.
pub open spec fn bad_form(st: StyleView, i: nat) -> Seq<char>
    decreases st.forms.len() - i,
{
    if i >= st.forms.len() {
        Seq::empty()
    } else {
        match bad_section(st, st.forms[i as int], 0) {
            Some(n) => n,
            None => bad_form(st, i + 1),
        }
    }
}

/// The first name from `i` on that no riff has.
pub open spec fn bad_riff(st: StyleView, ns: Seq<Seq<char>>, i: nat) -> Option<Seq<char>>
    decreases ns.len() - i,
{
    if i >= ns.len() {
        None
    } else if !parser::has_riff(st, ns[i as int]) {
        Some(ns[i as int])
    } else {
        bad_riff(st, ns, i + 1)
    }
}

/// The first name from `i` on that no drum pattern has.
pub open spec fn bad_drums(st: StyleView, ns: Seq<Seq<char>>, i: nat) -> Option<Seq<char>>
    decreases ns.len() - i,
{
    if i >= ns.len() {
        None
    } else if !parser::has_drums(st, ns[i as int]) {
        Some(ns[i as int])
    } else {
        bad_drums(st, ns, i + 1)
    }
}

/// The first section from `i` on that names a missing riff or drum pattern,
/// and the name.
pub open spec fn bad_reference(st: StyleView, i: nat) -> (Seq<char>, Seq<char>)
    decreases st.sections.len() - i,
{
    if i >= st.sections.len() {
        (Seq::empty(), Seq::empty())
    } else {
        let s = st.sections[i as int];
        match bad_riff(st, s.riffs, 0) {
            Some(n) => (s.name, n),
            None => match bad_drums(st, s.drums, 0) {
                Some(n) => (s.name, n),
                None => bad_reference(st, i + 1),
            },
        }
    }
}

/// The first word of what a directive is given.
pub open spec fn first_of(args: Seq<char>) -> Seq<char> {
    match parser::named_args(args) {
        Some((w, _)) => w,
        None => args,
    }
}

/// What follows the first word.
pub open spec fn rest_of(args: Seq<char>) -> Seq<char> {
    match parser::named_args(args) {
        Some((_, rest)) => rest,
        None => Seq::empty(),
    }
}

/// The slot that a directive's first word names.
pub open spec fn slot_of(args: Seq<char>) -> nat {
    match text::parse_uint(first_of(args), 16, usize::MAX as nat) {
        Some(n) => n,
        None => 0,
    }
}

/// The first value from `i` on that names no instrument where a riff wants
/// one.
pub open spec fn bad_instrument(
    names: Seq<(Seq<char>, u8)>,
    ps: Seq<(Seq<char>, Seq<char>)>,
    i: nat,
) -> Seq<char>
    decreases ps.len() - i,
{
    if i >= ps.len() {
        Seq::empty()
    } else {
        let (k, v) = ps[i as int];
        if (k == "lead"@ || k == "harm"@ || k == "bassi"@) && parser::instr_value(names, v) is Err {
            v
        } else {
            bad_instrument(names, ps, i + 1)
        }
    }
}

/// The first note from `i` on that is none where a drum wants one.
pub open spec fn bad_noise(ps: Seq<(Seq<char>, Seq<char>)>, i: nat) -> Seq<char>
    decreases ps.len() - i,
{
    if i >= ps.len() {
        Seq::empty()
    } else {
        let (k, v) = ps[i as int];
        if (k == "hat"@ || k == "open"@ || k == "crash"@) && parser::noise_value(v) == Err::<
            (u8, u8),
            StyleFault,
        >(StyleFault::BadNote) {
            v.take(text::char_index(v, '/') as int)
        } else {
            bad_noise(ps, i + 1)
        }
    }
}

/// The first drum line from `i` on without a token for each step, and how
/// many it has.
pub open spec fn bad_pattern(ps: Seq<(Seq<char>, Seq<char>)>, i: nat) -> (Seq<char>, nat)
    decreases ps.len() - i,
{
    if i >= ps.len() {
        (Seq::empty(), 0)
    } else {
        let (k, v) = ps[i as int];
        if text::words(v).len() != 16 {
            (k, text::words(v).len())
        } else {
            bad_pattern(ps, i + 1)
        }
    }
}

/// The first slot from `i` on without a sample.
pub open spec fn missing_slot(st: StyleView, i: nat) -> nat
    decreases st.samples.len() - i,
{
    if i >= st.samples.len() || st.samples[i as int].path.len() == 0 {
        i
    } else {
        missing_slot(st, i + 1)
    }
}

/// The first token from `j` on that triggers nothing.
pub open spec fn bad_token(st: StyleView, tokens: Seq<char>, j: nat) -> Option<char>
    decreases tokens.len() - j,
{
    if j >= tokens.len() {
        None
    } else if tokens[j as int] != '.' && style::token_note(st.samples, tokens[j as int]) is None {
        Some(tokens[j as int])
    } else {
        bad_token(st, tokens, j + 1)
    }
}

/// The first drum pattern from `i` on with a token that triggers nothing, and
/// the token.
pub open spec fn bad_trigger(st: StyleView, i: nat) -> (Seq<char>, char)
    decreases st.drums.len() - i,
{
    if i >= st.drums.len() {
        (Seq::empty(), '.')
    } else {
        match bad_token(st, st.drums[i as int].dpcm, 0) {
            Some(c) => (st.drums[i as int].name, c),
            None => bad_trigger(st, i + 1),
        }
    }
}

/// A fault in words, given the style as far as it was read and what the
/// line's directive was given.
pub open spec fn fault_words(f: StyleFault, st: StyleView, args: Seq<char>) -> Seq<char> {
    let ws = text::words(args);
    match f {
        StyleFault::BadKey => "bad key "@ + text::debug_text(bad_key(ws, 0)),
        StyleFault::BadChord => "bad chord "@ + text::debug_text(bad_chord(ws, 0)),
        StyleFault::UnknownScale => "unknown scale "@ + text::debug_text(bad_scale(st, ws, 0))
            + " (define it with @scale first)"@,
        StyleFault::UnknownSection => "@form references unknown section "@ + text::debug_text(
            bad_form(st, 0),
        ),
        StyleFault::UnknownRiff => "section "@ + text::debug_text(bad_reference(st, 0).0)
            + " references unknown riff "@ + text::debug_text(bad_reference(st, 0).1),
        StyleFault::UnknownDrums => "section "@ + text::debug_text(bad_reference(st, 0).0)
            + " references unknown drums "@ + text::debug_text(bad_reference(st, 0).1),
        StyleFault::UnknownInstrument => "unknown instrument "@ + text::debug_text(
            bad_instrument(st.instr_names, text::pairs(rest_of(args)), 0),
        ),
        StyleFault::BadNote => "bad note "@ + text::debug_text(bad_noise(text::pairs(args), 0)),
        StyleFault::InstrumentRange => "instrument "@ + text::numeral(slot_of(args), 16)
            + " out of range"@,
        StyleFault::SampleSlot => "slot "@ + text::numeral(slot_of(args), 16)
            + " out of range (max 3F)"@,
        StyleFault::DrumTokens => bad_pattern(text::pairs(rest_of(args)), 0).0
            + " needs 16 tokens, got "@ + text::dec(bad_pattern(text::pairs(rest_of(args)), 0).1),
        StyleFault::MissingSample => "@dpcm slot "@ + text::hex2(missing_slot(st, 0))
            + " is missing (slots must be contiguous)"@,
        StyleFault::UnmappedToken => "@drums "@ + bad_trigger(st, 0).0 + " uses DPCM token "@
            + text::debug_char_text(bad_trigger(st, 0).1) + " with no @dpcm token= for it"@,
        _ => parser::fault_text(f),
    }
}

/// What is said of a text that is no style.
pub open spec fn told(t: Seq<char>, e: StyleError) -> Seq<char> {
    let ls = text::lines(t);
    let k = if e.line == 0 {
        ls.len()
    } else {
        (e.line - 1) as nat
    };
    let st = state_at(style::blank_style(), ls, 0, k);
    if e.line == 0 {
        fault_words(e.fault, st, Seq::empty())
    } else if e.fault == StyleFault::NotADirective {
        "line "@ + text::dec(e.line as nat) + ": "@ + parser::fault_text(e.fault)
    } else {
        let (dir, args) = directive_of(ls[e.line - 1]);
        "line "@ + text::dec(e.line as nat) + ": @"@ + dir + ": "@ + fault_words(e.fault, st, args)
    }
}

fn find_bad_key(ws: &Vec<&[char]>) -> (r: Vec<char>)
    ensures
        r@ == bad_key(text::views(ws@), 0),
{
    let ghost all = text::views(ws@);
    assert(all.len() == ws@.len());
    let mut i: usize = 0;
    while i < ws.len()
        invariant
            i <= ws@.len(),
            all == text::views(ws@),
            all.len() == ws@.len(),
            bad_key(all, 0) == bad_key(all, i as nat),
        decreases ws@.len() - i,
    {
        assert(all[i as int] == ws@[i as int]@);
        if gen::read_key(ws[i]).is_none() {
            return text::copy_of(ws[i]);
        }
        i += 1;
    }
    Vec::new()
}

fn find_bad_chord(ws: &Vec<&[char]>) -> (r: Vec<char>)
    ensures
        r@ == bad_chord(text::views(ws@), 0),
{
    let ghost all = text::views(ws@);
    assert(all.len() == ws@.len());
    let mut i: usize = 0;
    while i < ws.len()
        invariant
            i <= ws@.len(),
            all == text::views(ws@),
            all.len() == ws@.len(),
            bad_chord(all, 0) == bad_chord(all, i as nat),
        decreases ws@.len() - i,
    {
        assert(all[i as int] == ws@[i as int]@);
        let w: &[char] = ws[i];
        let named: bool = w.len() >= 5 && text::is_lit(text::head(w, 5), "name=");
        if !named && style::read_chord(w).is_none() {
            return text::copy_of(w);
        }
        i += 1;
    }
    Vec::new()
}

fn find_bad_scale(st: &Style, ws: &Vec<&[char]>) -> (r: Vec<char>)
    ensures
        r@ == bad_scale(st@, text::views(ws@), 0),
{
    let ghost all = text::views(ws@);
    assert(all.len() == ws@.len());
    let mut i: usize = 0;
    while i < ws.len()
        invariant
            i <= ws@.len(),
            all == text::views(ws@),
            all.len() == ws@.len(),
            bad_scale(st@, all, 0) == bad_scale(st@, all, i as nat),
        decreases ws@.len() - i,
    {
        assert(all[i as int] == ws@[i as int]@);
        if gen::read_mode(ws[i]).is_none() && !parser::defines_scale(&st.scales, ws[i]) {
            return text::copy_of(ws[i]);
        }
        i += 1;
    }
    Vec::new()
}

fn find_bad_section(st: &Style, f: &Vec<String>) -> (r: Option<Vec<char>>)
    ensures
        match r {
            Some(v) => bad_section(st@, text::texts(f@), 0) == Some(v@),
            None => bad_section(st@, text::texts(f@), 0) is None,
        },
{
    let ghost all = text::texts(f@);
    assert(all.len() == f@.len());
    let mut i: usize = 0;
    while i < f.len()
        invariant
            i <= f@.len(),
            all == text::texts(f@),
            all.len() == f@.len(),
            bad_section(st@, all, 0) == bad_section(st@, all, i as nat),
        decreases f@.len() - i,
    {
        assert(all[i as int] == f@[i as int]@);
        let v: Vec<char> = text::chars_of(f[i].as_str());
        let (name, _): (&[char], i32) = parser::read_transpose(v.as_slice());
        if st.find_section(name).is_none() {
            return Some(text::copy_of(name));
        }
        i += 1;
    }
    None
}

fn find_bad_form(st: &Style) -> (r: Vec<char>)
    ensures
        r@ == bad_form(st@, 0),
{
    assert(st@.forms.len() == st.forms@.len());
    let mut i: usize = 0;
    while i < st.forms.len()
        invariant
            i <= st.forms@.len(),
            st@.forms.len() == st.forms@.len(),
            bad_form(st@, 0) == bad_form(st@, i as nat),
        decreases st.forms@.len() - i,
    {
        assert(st@.forms[i as int] == text::texts(st.forms@[i as int]@));
        match find_bad_section(st, &st.forms[i]) {
            Some(n) => {
                return n;
            },
            None => {},
        }
        i += 1;
    }
    Vec::new()
}

fn find_bad_riff(st: &Style, ns: &Vec<String>) -> (r: Option<Vec<char>>)
    ensures
        match r {
            Some(v) => bad_riff(st@, text::texts(ns@), 0) == Some(v@),
            None => bad_riff(st@, text::texts(ns@), 0) is None,
        },
{
    let ghost all = text::texts(ns@);
    assert(all.len() == ns@.len());
    let mut i: usize = 0;
    while i < ns.len()
        invariant
            i <= ns@.len(),
            all == text::texts(ns@),
            all.len() == ns@.len(),
            bad_riff(st@, all, 0) == bad_riff(st@, all, i as nat),
        decreases ns@.len() - i,
    {
        assert(all[i as int] == ns@[i as int]@);
        let v: Vec<char> = text::chars_of(ns[i].as_str());
        if st.find_riff(v.as_slice()).is_none() {
            return Some(v);
        }
        i += 1;
    }
    None
}

fn find_bad_drums(st: &Style, ns: &Vec<String>) -> (r: Option<Vec<char>>)
    ensures
        match r {
            Some(v) => bad_drums(st@, text::texts(ns@), 0) == Some(v@),
            None => bad_drums(st@, text::texts(ns@), 0) is None,
        },
{
    let ghost all = text::texts(ns@);
    assert(all.len() == ns@.len());
    let mut i: usize = 0;
    while i < ns.len()
        invariant
            i <= ns@.len(),
            all == text::texts(ns@),
            all.len() == ns@.len(),
            bad_drums(st@, all, 0) == bad_drums(st@, all, i as nat),
        decreases ns@.len() - i,
    {
        assert(all[i as int] == ns@[i as int]@);
        let v: Vec<char> = text::chars_of(ns[i].as_str());
        if st.find_drums(v.as_slice()).is_none() {
            return Some(v);
        }
        i += 1;
    }
    None
}

fn find_bad_reference(st: &Style) -> (r: (Vec<char>, Vec<char>))
    ensures
        (r.0@, r.1@) == bad_reference(st@, 0),
{
    assert(st@.sections.len() == st.sections@.len());
    let mut i: usize = 0;
    while i < st.sections.len()
        invariant
            i <= st.sections@.len(),
            st@.sections.len() == st.sections@.len(),
            bad_reference(st@, 0) == bad_reference(st@, i as nat),
        decreases st.sections@.len() - i,
    {
        let s: &Section = &st.sections[i];
        assert(st@.sections[i as int] == s@);
        match find_bad_riff(st, &s.riffs) {
            Some(n) => {
                return (text::chars_of(s.name.as_str()), n);
            },
            None => {},
        }
        match find_bad_drums(st, &s.drums) {
            Some(n) => {
                return (text::chars_of(s.name.as_str()), n);
            },
            None => {},
        }
        i += 1;
    }
    (Vec::new(), Vec::new())
}

pub(crate) fn cut_first<'a>(args: &'a [char]) -> (r: (&'a [char], &'a [char]))
    ensures
        r.0@ == first_of(args@),
        r.1@ == rest_of(args@),
{
    match parser::split_name(args) {
        Some(p) => p,
        None => {
            let none: &'a [char] = text::head(args, 0);
            assert(none@ =~= Seq::<char>::empty());
            (args, none)
        },
    }
}

fn find_slot(args: &[char]) -> (r: u64)
    ensures
        r == slot_of(args@),
{
    let (w, _): (&[char], &[char]) = cut_first(args);
    match text::read_uint(w, 16, usize::MAX as u64) {
        Some(n) => n,
        None => 0,
    }
}

fn find_bad_instrument(st: &Style, args: &[char]) -> (r: Vec<char>)
    ensures
        r@ == bad_instrument(st@.instr_names, text::pairs(rest_of(args@)), 0),
{
    let (_, rest): (&[char], &[char]) = cut_first(args);
    let ps: Vec<(&[char], &[char])> = text::kv(rest);
    let ghost all = text::pairs(rest@);
    assert(all.len() == ps@.len());
    let mut i: usize = 0;
    while i < ps.len()
        invariant
            i <= ps@.len(),
            rest@ == rest_of(args@),
            all == text::pairs(rest@),
            all == text::pair_views(ps@),
            all.len() == ps@.len(),
            bad_instrument(st@.instr_names, all, 0) == bad_instrument(
                st@.instr_names,
                all,
                i as nat,
            ),
        decreases ps@.len() - i,
    {
        let (k, v): (&[char], &[char]) = ps[i];
        assert(all[i as int] == (k@, v@));
        let wants: bool = text::is_lit(k, "lead") || text::is_lit(k, "harm") || text::is_lit(
            k,
            "bassi",
        );
        if wants && parser::read_instr_value(&st.instr_names, v).is_err() {
            return text::copy_of(v);
        }
        i += 1;
    }
    Vec::new()
}

fn find_bad_noise(args: &[char]) -> (r: Vec<char>)
    ensures
        r@ == bad_noise(text::pairs(args@), 0),
{
    let ps: Vec<(&[char], &[char])> = text::kv(args);
    let ghost all = text::pairs(args@);
    assert(all.len() == ps@.len());
    let mut i: usize = 0;
    while i < ps.len()
        invariant
            i <= ps@.len(),
            all == text::pairs(args@),
            all == text::pair_views(ps@),
            all.len() == ps@.len(),
            bad_noise(all, 0) == bad_noise(all, i as nat),
        decreases ps@.len() - i,
    {
        let (k, v): (&[char], &[char]) = ps[i];
        assert(all[i as int] == (k@, v@));
        let wants: bool = text::is_lit(k, "hat") || text::is_lit(k, "open") || text::is_lit(
            k,
            "crash",
        );
        if wants {
            match parser::read_noise_value(v) {
                Err(StyleFault::BadNote) => {
                    let n: usize = text::find_char(v, '/');
                    return text::copy_of(text::head(v, n));
                },
                _ => {},
            }
        }
        i += 1;
    }
    Vec::new()
}

fn find_bad_pattern(args: &[char]) -> (r: (Vec<char>, usize))
    ensures
        (r.0@, r.1 as nat) == bad_pattern(text::pairs(rest_of(args@)), 0),
{
    let (_, rest): (&[char], &[char]) = cut_first(args);
    let ps: Vec<(&[char], &[char])> = text::kv(rest);
    let ghost all = text::pairs(rest@);
    assert(all.len() == ps@.len());
    let mut i: usize = 0;
    while i < ps.len()
        invariant
            i <= ps@.len(),
            rest@ == rest_of(args@),
            all == text::pairs(rest@),
            all == text::pair_views(ps@),
            all.len() == ps@.len(),
            bad_pattern(all, 0) == bad_pattern(all, i as nat),
        decreases ps@.len() - i,
    {
        let (k, v): (&[char], &[char]) = ps[i];
        assert(all[i as int] == (k@, v@));
        let ws: Vec<&[char]> = text::split_words(v);
        assert(text::views(ws@).len() == ws@.len());
        if ws.len() != 16 {
            return (text::copy_of(k), ws.len());
        }
        i += 1;
    }
    (Vec::new(), 0)
}

fn find_missing_slot(st: &Style) -> (r: usize)
    ensures
        r == missing_slot(st@, 0),
{
    assert(st@.samples.len() == st.samples@.len());
    let mut i: usize = 0;
    while i < st.samples.len()
        invariant
            i <= st.samples@.len(),
            st@.samples.len() == st.samples@.len(),
            missing_slot(st@, 0) == missing_slot(st@, i as nat),
        decreases st.samples@.len() - i,
    {
        assert(st@.samples[i as int] == st.samples@[i as int]@);
        let path: Vec<char> = text::chars_of(st.samples[i].path.as_str());
        if path.len() == 0 {
            return i;
        }
        i += 1;
    }
    i
}

fn find_bad_token(st: &Style, tokens: &Vec<char>) -> (r: Option<char>)
    ensures
        r == bad_token(st@, tokens@, 0),
{
    assert(st@.samples.len() == st.samples@.len());
    let mut j: usize = 0;
    while j < tokens.len()
        invariant
            j <= tokens@.len(),
            st@.samples.len() == st.samples@.len(),
            bad_token(st@, tokens@, 0) == bad_token(st@, tokens@, j as nat),
        decreases tokens@.len() - j,
    {
        let c: char = tokens[j];
        let known: bool = c == '.' || if st.samples.len() == 0 {
            c == 'k' || c == 's' || c == 't'
        } else {
            st.slot_of(c).is_some()
        };
        if !known {
            return Some(c);
        }
        j += 1;
    }
    None
}

fn find_bad_trigger(st: &Style) -> (r: (Vec<char>, char))
    ensures
        (r.0@, r.1) == bad_trigger(st@, 0),
{
    assert(st@.drums.len() == st.drums@.len());
    let mut i: usize = 0;
    while i < st.drums.len()
        invariant
            i <= st.drums@.len(),
            st@.drums.len() == st.drums@.len(),
            bad_trigger(st@, 0) == bad_trigger(st@, i as nat),
        decreases st.drums@.len() - i,
    {
        assert(st@.drums[i as int] == st.drums@[i as int]@);
        match find_bad_token(st, &st.drums[i].dpcm) {
            Some(c) => {
                return (text::chars_of(st.drums[i].name.as_str()), c);
            },
            None => {},
        }
        i += 1;
    }
    (Vec::new(), '.')
}

/// Writes a word in quotes.
pub(crate) fn put_debug(out: &mut Vec<char>, w: &Vec<char>)
    ensures
        final(out)@ == old(out)@ + text::debug_text(w@),
{
    let q: String = text::debug_of(text::string_of(w.as_slice()).as_str());
    text::put_str(out, q.as_str());
}

/// A fault of a line, in words.
fn put_line_fault(out: &mut Vec<char>, f: StyleFault, st: &Style, args: &[char])
    ensures
        (f is BadKey || f is BadChord || f is UnknownScale || f is UnknownInstrument || f is BadNote
            || f is InstrumentRange || f is SampleSlot || f is DrumTokens) ==> final(out)@ == old(
            out,
        )@ + fault_words(f, st@, args@),
{
    let ghost start = out@;
    let ws: Vec<&[char]> = text::split_words(args);
    match f {
        StyleFault::BadKey => {
            text::put_str(out, "bad key ");
            put_debug(out, &find_bad_key(&ws));
        },
        StyleFault::BadChord => {
            text::put_str(out, "bad chord ");
            put_debug(out, &find_bad_chord(&ws));
        },
        StyleFault::UnknownScale => {
            text::put_str(out, "unknown scale ");
            put_debug(out, &find_bad_scale(st, &ws));
            text::put_str(out, " (define it with @scale first)");
        },
        StyleFault::UnknownInstrument => {
            text::put_str(out, "unknown instrument ");
            put_debug(out, &find_bad_instrument(st, args));
        },
        StyleFault::BadNote => {
            text::put_str(out, "bad note ");
            put_debug(out, &find_bad_noise(args));
        },
        StyleFault::InstrumentRange => {
            text::put_str(out, "instrument ");
            let n: Vec<char> = text::numeral_of(find_slot(args) as u128, 16);
            text::put(out, n.as_slice());
            text::put_str(out, " out of range");
        },
        StyleFault::SampleSlot => {
            text::put_str(out, "slot ");
            let n: Vec<char> = text::numeral_of(find_slot(args) as u128, 16);
            text::put(out, n.as_slice());
            text::put_str(out, " out of range (max 3F)");
        },
        StyleFault::DrumTokens => {
            let (k, n): (Vec<char>, usize) = find_bad_pattern(args);
            text::put(out, k.as_slice());
            text::put_str(out, " needs 16 tokens, got ");
            text::put_dec(out, n as u64);
        },
        _ => {},
    }
    assert((f is BadKey || f is BadChord || f is UnknownScale || f is UnknownInstrument || f
        is BadNote || f is InstrumentRange || f is SampleSlot || f is DrumTokens) ==> out@
        =~= start + fault_words(f, st@, args@));
}

fn put_fault(out: &mut Vec<char>, f: StyleFault, st: &Style, args: &[char])
    ensures
        final(out)@ == old(out)@ + fault_words(f, st@, args@),
{
    let ghost start = out@;
    match f {
        StyleFault::BadKey
        | StyleFault::BadChord
        | StyleFault::UnknownScale
        | StyleFault::UnknownInstrument
        | StyleFault::BadNote
        | StyleFault::InstrumentRange
        | StyleFault::SampleSlot
        | StyleFault::DrumTokens => {
            put_line_fault(out, f, st, args);
        },
        StyleFault::UnknownSection => {
            text::put_str(out, "@form references unknown section ");
            put_debug(out, &find_bad_form(st));
        },
        StyleFault::UnknownRiff => {
            let (name, n): (Vec<char>, Vec<char>) = find_bad_reference(st);
            text::put_str(out, "section ");
            put_debug(out, &name);
            text::put_str(out, " references unknown riff ");
            put_debug(out, &n);
        },
        StyleFault::UnknownDrums => {
            let (name, n): (Vec<char>, Vec<char>) = find_bad_reference(st);
            text::put_str(out, "section ");
            put_debug(out, &name);
            text::put_str(out, " references unknown drums ");
            put_debug(out, &n);
        },
        StyleFault::MissingSample => {
            text::put_str(out, "@dpcm slot ");
            text::put_hex2(out, find_missing_slot(st) as u64);
            text::put_str(out, " is missing (slots must be contiguous)");
        },
        StyleFault::UnmappedToken => {
            let (name, c): (Vec<char>, char) = find_bad_trigger(st);
            text::put_str(out, "@drums ");
            text::put(out, name.as_slice());
            text::put_str(out, " uses DPCM token ");
            text::put_str(out, text::debug_char(c).as_str());
            text::put_str(out, " with no @dpcm token= for it");
        },
        _ => {
            text::put_str(out, parser::plain_words(f));
        },
    }
    assert(out@ =~= start + fault_words(f, st@, args@));
}

/// Reads the lines before the one at fault.
fn read_up_to(ls: &Vec<&[char]>, k: usize, Ghost(e): Ghost<StyleError>) -> (r: Style)
    requires
        k <= ls@.len(),
        match parser::run_lines(style::blank_style(), text::views(ls@), 0) {
            Ok(_) => k == ls@.len(),
            Err(f) => f == e && e.line == k + 1,
        },
    ensures
        r@ == state_at(style::blank_style(), text::views(ls@), 0, k as nat),
{
    let ghost all = text::views(ls@);
    let ghost want = state_at(style::blank_style(), all, 0, k as nat);
    assert(all.len() == ls@.len());
    let n: usize = ls.len();
    let mut st: Style = Style::blank();
    let mut i: usize = 0;
    while i < k
        invariant
            n == ls@.len(),
            i <= k <= ls@.len(),
            all == text::views(ls@),
            all.len() == ls@.len(),
            want == state_at(st@, all, i as nat, k as nat),
            match parser::run_lines(st@, all, i as nat) {
                Ok(_) => k == ls@.len(),
                Err(f) => f == e && e.line == k + 1,
            },
        decreases k - i,
    {
        assert(all[i as int] == ls@[i as int]@);
        let ghost was = st@;
        let r: Result<(), StyleFault> = parser::read_line(&mut st, ls[i]);
        proof {
            lemma_step(was, all, i as nat);
        }
        assert(r is Ok);
        i += 1;
    }
    st
}

proof fn lemma_step(st: StyleView, ls: Seq<Seq<char>>, i: nat)
    requires
        i < ls.len() <= usize::MAX,
    ensures
        match parser::line_step(st, ls[i as int]) {
            Ok(t) => parser::run_lines(st, ls, i) == parser::run_lines(t, ls, i + 1),
            Err(fault) => parser::run_lines(st, ls, i) == Err::<StyleView, StyleError>(
                StyleError { line: (i + 1) as usize, fault },
            ),
        },
{
}

/// A fault on a line is on a line of the text.
proof fn lemma_fault_line(st: StyleView, ls: Seq<Seq<char>>, i: nat)
    requires
        i <= ls.len() <= usize::MAX,
        parser::run_lines(st, ls, i) is Err,
    ensures
        i < parser::run_lines(st, ls, i)->Err_0.line <= ls.len(),
        parser::run_lines(st, ls, i)->Err_0.fault != StyleFault::NotADirective
            ==> text::trim(text::uncomment(ls[parser::run_lines(st, ls, i)->Err_0.line - 1])).len()
            > 0,
    decreases ls.len() - i,
{
    if i < ls.len() {
        lemma_step(st, ls, i);
        match parser::line_step(st, ls[i as int]) {
            Ok(t) => {
                lemma_fault_line(t, ls, i + 1);
            },
            Err(_) => {},
        }
    }
}

/// A line's directive and what it is given.
pub(crate) fn copy_directive(raw: &[char]) -> (r: (Vec<char>, Vec<char>))
    ensures
        (r.0@, r.1@) == directive_of(raw@),
{
    let line: &[char] = text::trimmed(text::strip_comment(raw));
    if line.len() == 0 {
        return (Vec::new(), Vec::new());
    }
    let body: &[char] = text::tail(line, 1);
    match parser::split_name(body) {
        Some((dir, args)) => (text::copy_of(dir), text::copy_of(args)),
        None => (text::copy_of(body), Vec::new()),
    }
}

/// Says what is wrong with a text that is no style.
pub fn explain(source: &str, e: StyleError) -> (r: String)
    requires
        parser::parse_style(source@) == Err::<StyleView, StyleError>(e),
    ensures
        r@ == told(source@, e),
{
    let chars: Vec<char> = text::chars_of(source);
    let ls: Vec<&[char]> = text::split_lines(chars.as_slice());
    let ghost all = text::lines(source@);
    let n: usize = ls.len();
    assert(all == text::views(ls@));
    assert(all.len() == n);
    proof {
        if parser::run_lines(style::blank_style(), all, 0) is Err {
            lemma_fault_line(style::blank_style(), all, 0);
        }
    }
    let mut m: Vec<char> = Vec::new();
    if e.line == 0 {
        let st: Style = read_up_to(&ls, n, Ghost(e));
        let none: &[char] = text::head(chars.as_slice(), 0);
        assert(none@ =~= Seq::<char>::empty());
        put_fault(&mut m, e.fault, &st, none);
        assert(m@ =~= told(source@, e));
        return text::string_of(m.as_slice());
    }
    let k: usize = e.line - 1;
    let st: Style = read_up_to(&ls, k, Ghost(e));
    text::put_str(&mut m, "line ");
    text::put_dec(&mut m, e.line as u64);
    if e.fault == StyleFault::NotADirective {
        text::put_str(&mut m, ": ");
        text::put_str(&mut m, parser::plain_words(e.fault));
        assert(m@ =~= told(source@, e));
        return text::string_of(m.as_slice());
    }
    assert(all[k as int] == ls@[k as int]@);
    let (dir, args): (Vec<char>, Vec<char>) = copy_directive(ls[k]);
    text::put_str(&mut m, ": @");
    text::put(&mut m, dir.as_slice());
    text::put_str(&mut m, ": ");
    put_fault(&mut m, e.fault, &st, args.as_slice());
    assert(m@ =~= told(source@, e));
    text::string_of(m.as_slice())
}

} // verus!
