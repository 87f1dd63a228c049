//! Chord symbols and progressions.

use vstd::prelude::*;

use crate::gen;
use crate::gen::Mode;
use crate::style;
use crate::style::ChordSym;
use crate::text;

verus! {

/// A chord: a root pitch class and intervals above it in semitones.
#[derive(Clone, Debug, PartialEq, Eq)]
pub struct Chord {
    pub root: u8,
    pub intervals: Vec<i32>,
}

#[verifier::ext_equal]
pub struct ChordView {
    pub root: u8,
    pub intervals: Seq<i32>,
}

impl View for Chord {
    type V = ChordView;

    open spec fn view(&self) -> ChordView {
        ChordView { root: self.root, intervals: self.intervals@ }
    }
}

pub open spec fn clamp(x: int, lo: int, hi: int) -> int {
    if x < lo {
        lo
    } else if x > hi {
        hi
    } else {
        x
    }
}

/// A chord tone as a MIDI note, with the root in `octave`.
pub open spec fn tone(root: u8, interval: i32, octave: int) -> u8 {
    clamp(12 * (octave + 1) + root + interval, 0, 127) as u8
}

/// The chord's tones as MIDI notes, with the root in `octave`.
pub open spec fn tones(c: ChordView, octave: int) -> Seq<u8> {
    c.intervals.map_values(|i: i32| tone(c.root, i, octave))
}

/// An interval of the chord; one that it does not have is zero.
pub open spec fn interval(c: ChordView, i: int) -> i32 {
    if i < c.intervals.len() {
        c.intervals[i]
    } else {
        0
    }
}

pub fn tone_of(root: u8, interval: i32, octave: i64) -> (r: u8)
    requires
        -0x1_0000_0000 < octave < 0x1_0000_0000,
    ensures
        r == tone(root, interval, octave as int),
{
    let n: i64 = 12 * (octave + 1) + root as i64 + interval as i64;
    if n < 0 {
        0
    } else if n > 127 {
        127
    } else {
        n as u8
    }
}

impl Chord {
    /// Chord tones as MIDI notes with the root in `octave`.
    pub fn tones(&self, octave: i32) -> (r: Vec<u8>)
        ensures
            r@ == tones(self@, octave as int),
    {
        let mut out: Vec<u8> = Vec::new();
        let mut i: usize = 0;
        while i < self.intervals.len()
            invariant
                i <= self.intervals@.len(),
                out@ == tones(self@, octave as int).take(i as int),
            decreases self.intervals@.len() - i,
        {
            out.push(tone_of(self.root, self.intervals[i], octave as i64));
            i += 1;
            assert(out@ =~= tones(self@, octave as int).take(i as int));
        }
        assert(out@ =~= tones(self@, octave as int));
        out
    }

    pub fn interval(&self, i: usize) -> (r: i32)
        ensures
            r == interval(self@, i as int),
    {
        if i < self.intervals.len() {
            self.intervals[i]
        } else {
            0
        }
    }
}

// ---------------------------------------------------------------- roots and keys

/// A note letter with an optional accidental cut off the front: `F#m7` is
/// pitch class 6 and `m7`.
pub open spec fn root_split(s: Seq<char>) -> Option<(u8, Seq<char>)> {
    if s.len() == 0 || crate::vip::letter_pitch(s[0]) is None {
        None
    } else {
        let n: int = if s.len() > 1 && (s[1] == '#' || s[1] == 'b') {
            2
        } else {
            1
        };
        match gen::key_named(s.take(n)) {
            Some(k) => Some((k, s.skip(n))),
            None => None,
        }
    }
}

pub fn split_root<'a>(s: &'a [char]) -> (r: Option<(u8, &'a [char])>)
    ensures
        match r {
            Some((k, rest)) => root_split(s@) == Some((k, rest@)) && k < 12,
            None => root_split(s@) is None,
        },
{
    if s.len() == 0 {
        return None;
    }
    let n: usize = if s.len() > 1 && (s[1] == '#' || s[1] == 'b') {
        2
    } else {
        1
    };
    match gen::read_key(text::head(s, n)) {
        Some(k) => Some((k, text::tail(s, n))),
        None => {
            None
        },
    }
}

/// `Am` is A minor, `C` is C major, `F#m` F# minor, `Ddorian` D dorian.
pub open spec fn key_spec(s: Seq<char>) -> Option<(u8, Mode)> {
    match root_split(text::trim(s)) {
        None => None,
        Some((root, rest)) => {
            let rest = text::trim(rest);
            if rest.len() == 0 || rest == "maj"@ || rest == "major"@ || rest == "M"@ {
                Some((root, Mode::Major))
            } else if rest == "m"@ || rest == "min"@ || rest == "minor"@ {
                Some((root, Mode::Minor))
            } else {
                match gen::mode_named(rest) {
                    Some(m) => Some((root, m)),
                    None => None,
                }
            }
        },
    }
}

pub fn read_key_spec(s: &[char]) -> (r: Option<(u8, Mode)>)
    ensures
        r == key_spec(s@),
        r is Some ==> (r->0).0 < 12,
{
    match split_root(text::trimmed(s)) {
        None => None,
        Some((root, rest)) => {
            let rest: &[char] = text::trimmed(rest);
            if rest.len() == 0 || text::is_lit(rest, "maj") || text::is_lit(rest, "major")
                || text::is_lit(rest, "M") {
                Some((root, Mode::Major))
            } else if text::is_lit(rest, "m") || text::is_lit(rest, "min") || text::is_lit(
                rest,
                "minor",
            ) {
                Some((root, Mode::Minor))
            } else {
                match gen::read_mode(rest) {
                    Some(m) => Some((root, m)),
                    None => None,
                }
            }
        },
    }
}

/// A key and mode in one word.
pub fn parse_key_spec(s: &str) -> (r: Option<(u8, Mode)>)
    ensures
        r == key_spec(s@),
        r is Some ==> (r->0).0 < 12,
{
    let v: Vec<char> = text::chars_of(s);
    read_key_spec(v.as_slice())
}

// ---------------------------------------------------------------- chord symbols

/// A triad changed by a quality suffix. `seventh` is what the scale gives a
/// plain seventh.
pub open spec fn suffixed(iv: Seq<i32>, s: Seq<char>, seventh: Option<i32>) -> Option<Seq<i32>> {
    let sv: i32 = match seventh {
        Some(x) => x,
        None => 10,
    };
    if s.len() == 0 {
        Some(iv)
    } else if s == "7"@ {
        Some(iv.push(sv))
    } else if s == "maj7"@ || s == "M7"@ {
        Some(iv.push(11))
    } else if s == "6"@ {
        Some(iv.push(9))
    } else if s == "9"@ {
        Some(iv.push(sv).push(14))
    } else if s == "dim"@ || s == "o"@ {
        Some(iv.update(1, 3).update(2, 6))
    } else if s == "dim7"@ || s == "o7"@ {
        Some(iv.update(1, 3).update(2, 6).push(9))
    } else if s == "aug"@ || s == "+"@ {
        Some(iv.update(2, 8))
    } else if s == "sus4"@ || s == "sus"@ {
        Some(iv.update(1, 5))
    } else if s == "sus2"@ {
        Some(iv.update(1, 2))
    } else if s == "5"@ {
        Some(iv.take(1).push(7))
    } else {
        None
    }
}

fn apply_chord_suffix(iv: Vec<i32>, s: &[char], seventh: Option<i32>) -> (r: Option<Vec<i32>>)
    requires
        iv@.len() == 3,
    ensures
        match r {
            Some(v) => suffixed(iv@, s@, seventh) == Some(v@) && v@.len() >= 1,
            None => suffixed(iv@, s@, seventh) is None,
        },
{
    let mut iv: Vec<i32> = iv;
    let sv: i32 = match seventh {
        Some(x) => x,
        None => 10,
    };
    if s.len() == 0 {
    } else if text::is_lit(s, "7") {
        iv.push(sv);
    } else if text::is_lit(s, "maj7") || text::is_lit(s, "M7") {
        iv.push(11);
    } else if text::is_lit(s, "6") {
        iv.push(9);
    } else if text::is_lit(s, "9") {
        iv.push(sv);
        iv.push(14);
    } else if text::is_lit(s, "dim") || text::is_lit(s, "o") {
        iv[1] = 3;
        iv[2] = 6;
    } else if text::is_lit(s, "dim7") || text::is_lit(s, "o7") {
        iv[1] = 3;
        iv[2] = 6;
        iv.push(9);
    } else if text::is_lit(s, "aug") || text::is_lit(s, "+") {
        iv[2] = 8;
    } else if text::is_lit(s, "sus4") || text::is_lit(s, "sus") {
        iv[1] = 5;
    } else if text::is_lit(s, "sus2") {
        iv[1] = 2;
    } else if text::is_lit(s, "5") {
        iv.truncate(1);
        iv.push(7);
    } else {
        return None;
    }
    Some(iv)
}

pub open spec fn is_mark(c: char, comma: bool) -> bool {
    c == '"' || c == '\'' || (comma && c == ',')
}

/// The text without leading quotes (and commas).
pub open spec fn peel_front(s: Seq<char>, comma: bool) -> Seq<char>
    decreases s.len(),
{
    if s.len() > 0 && is_mark(s[0], comma) {
        peel_front(s.skip(1), comma)
    } else {
        s
    }
}

/// The text without trailing quotes (and commas).
pub open spec fn peel_back(s: Seq<char>, comma: bool) -> Seq<char>
    decreases s.len(),
{
    if s.len() > 0 && is_mark(s.last(), comma) {
        peel_back(s.drop_last(), comma)
    } else {
        s
    }
}

pub open spec fn peel(s: Seq<char>, comma: bool) -> Seq<char> {
    peel_back(peel_front(s, comma), comma)
}

pub fn peeled<'a>(s: &'a [char], comma: bool) -> (r: &'a [char])
    ensures
        r@ == peel(s@, comma),
{
    let mut k: usize = 0;
    assert(s@.skip(0) =~= s@);
    while k < s.len() && (s[k] == '"' || s[k] == '\'' || (comma && s[k] == ','))
        invariant
            k <= s@.len(),
            peel_front(s@, comma) == peel_front(s@.skip(k as int), comma),
        decreases s@.len() - k,
    {
        assert(s@.skip(k as int).skip(1) =~= s@.skip(k + 1));
        k += 1;
    }
    let t: &[char] = text::tail(s, k);
    let mut e: usize = t.len();
    assert(t@.take(e as int) =~= t@);
    while e > 0 && (t[e - 1] == '"' || t[e - 1] == '\'' || (comma && t[e - 1] == ','))
        invariant
            e <= t@.len(),
            peel_back(t@, comma) == peel_back(t@.take(e as int), comma),
        decreases e,
    {
        assert(t@.take(e as int).drop_last() =~= t@.take(e - 1));
        e -= 1;
    }
    text::head(t, e)
}

pub open spec fn is_roman(c: char) -> bool {
    c == 'i' || c == 'I' || c == 'v' || c == 'V'
}

/// How many roman-numeral letters a text starts with.
pub open spec fn roman_len(s: Seq<char>) -> nat
    decreases s.len(),
{
    if s.len() > 0 && is_roman(s[0]) {
        1 + roman_len(s.skip(1))
    } else {
        0
    }
}

fn count_roman(s: &[char]) -> (r: usize)
    ensures
        r == roman_len(s@),
        r <= s@.len(),
{
    let mut k: usize = 0;
    assert(s@.skip(0) =~= s@);
    while k < s.len() && (s[k] == 'i' || s[k] == 'I' || s[k] == 'v' || s[k] == 'V')
        invariant
            k <= s@.len(),
            roman_len(s@) == k + roman_len(s@.skip(k as int)),
        decreases s@.len() - k,
    {
        assert(s@.skip(k as int).skip(1) =~= s@.skip(k + 1));
        k += 1;
    }
    k
}

/// A scale degree above degree `deg`, in semitones; `d` may run past the
/// octave.
pub open spec fn degree_above(iv: Seq<u8>, deg: int, d: int) -> int {
    iv[d % iv.len() as int] + (if d >= iv.len() {
        12int
    } else {
        0int
    }) - iv[deg]
}

/// A roman-numeral chord with a quality suffix, in a key: the numeral's case
/// decides the third, the scale the fifth and seventh.
pub open spec fn roman_chord(
    sym: ChordSym,
    suffix: Seq<char>,
    key: u8,
    mode: Mode,
) -> Option<ChordView> {
    let iv = gen::mode_steps(mode);
    let deg: int = if sym.degree < iv.len() {
        sym.degree as int
    } else {
        iv.len() - 1
    };
    let fifth: int = if sym.accidental == 0 {
        degree_above(iv, deg, deg + 4)
    } else {
        7
    };
    let seventh: Option<i32> = if sym.accidental == 0 {
        Some(degree_above(iv, deg, deg + 6) as i32)
    } else {
        None
    };
    let third: i32 = if sym.minor {
        3
    } else {
        4
    };
    match suffixed(seq![0i32, third, fifth as i32], suffix, seventh) {
        Some(intervals) => Some(
            ChordView { root: ((key + iv[deg] + sym.accidental) % 12) as u8, intervals },
        ),
        None => None,
    }
}

/// A chord by letter name.
pub open spec fn letter_chord(tok: Seq<char>) -> Option<ChordView> {
    match root_split(tok) {
        None => None,
        Some((root, suffix)) => {
            let (third, rest): (i32, Seq<char>) = if suffix.len() >= 3 && suffix.take(3)
                == "min"@ {
                (3, suffix.skip(3))
            } else if suffix.len() >= 1 && suffix[0] == 'm' && !(suffix.len() >= 3
                && suffix.take(3) == "maj"@) {
                (3, suffix.skip(1))
            } else {
                (4, suffix)
            };
            match suffixed(seq![0i32, third, 7i32], rest, None) {
                Some(intervals) => Some(ChordView { root, intervals }),
                None => None,
            }
        },
    }
}

/// One chord token: a roman numeral (`i`, `IV`, `bVII`, `V7`) relative to the
/// key, or an absolute letter name (`Am`, `Cmaj7`, `F#dim7`, `E5`).
pub open spec fn chord_symbol(tok: Seq<char>, key: u8, mode: Mode) -> Option<ChordView> {
    let t = peel(tok, true);
    if t.len() == 0 {
        None
    } else {
        let acc: int = if t[0] == 'b' || t[0] == '#' {
            1
        } else {
            0
        };
        let n = roman_len(t.skip(acc)) as int;
        if n > 0 && style::chord_named(t.take(acc + n)) is Some {
            roman_chord(style::chord_named(t.take(acc + n))->0, t.skip(acc + n), key, mode)
        } else {
            letter_chord(t)
        }
    }
}

fn read_roman(sym: ChordSym, suffix: &[char], key: u8, mode: Mode) -> (r: Option<Chord>)
    requires
        -1 <= sym.accidental <= 1,
    ensures
        match r {
            Some(c) => roman_chord(sym, suffix@, key, mode) == Some(c@) && c.intervals@.len() >= 1,
            None => roman_chord(sym, suffix@, key, mode) is None,
        },
{
    let iv: &[u8] = mode.intervals();
    let n: usize = iv.len();
    let deg: usize = if sym.degree < n {
        sym.degree
    } else {
        n - 1
    };
    assert(iv@[deg as int] <= 11);
    let base: i32 = iv[deg] as i32;
    let third: i32 = if sym.minor {
        3
    } else {
        4
    };
    let mut fifth: i32 = 7;
    let mut seventh: Option<i32> = None;
    if sym.accidental == 0 {
        assert(iv@[(deg + 4) % (n as int)] <= 11);
        assert(iv@[(deg + 6) % (n as int)] <= 11);
        let up4: i32 = if deg + 4 >= n {
            12
        } else {
            0
        };
        let up6: i32 = if deg + 6 >= n {
            12
        } else {
            0
        };
        fifth = iv[(deg + 4) % n] as i32 + up4 - base;
        seventh = Some(iv[(deg + 6) % n] as i32 + up6 - base);
    }
    let mut triad: Vec<i32> = Vec::new();
    triad.push(0);
    triad.push(third);
    triad.push(fifth);
    assert(triad@ =~= seq![0i32, third, fifth]);
    match apply_chord_suffix(triad, suffix, seventh) {
        Some(intervals) => {
            let root: i32 = (key as i32 + base + sym.accidental + 12) % 12;
            Some(Chord { root: root as u8, intervals })
        },
        None => None,
    }
}

fn read_letter(tok: &[char]) -> (r: Option<Chord>)
    ensures
        match r {
            Some(c) => letter_chord(tok@) == Some(c@) && c.intervals@.len() >= 1,
            None => letter_chord(tok@) is None,
        },
{
    match split_root(tok) {
        None => None,
        Some((root, suffix)) => {
            let mut third: i32 = 4;
            let mut rest: &[char] = suffix;
            if suffix.len() >= 3 && text::is_lit(text::head(suffix, 3), "min") {
                third = 3;
                rest = text::tail(suffix, 3);
            } else if suffix.len() >= 1 && suffix[0] == 'm' && !(suffix.len() >= 3
                && text::is_lit(text::head(suffix, 3), "maj")) {
                third = 3;
                rest = text::tail(suffix, 1);
            }
            let mut triad: Vec<i32> = Vec::new();
            triad.push(0);
            triad.push(third);
            triad.push(7);
            assert(triad@ =~= seq![0i32, third, 7i32]);
            match apply_chord_suffix(triad, rest, None) {
                Some(intervals) => Some(Chord { root, intervals }),
                None => None,
            }
        },
    }
}

pub fn read_chord_symbol(tok: &[char], key: u8, mode: Mode) -> (r: Option<Chord>)
    ensures
        match r {
            Some(c) => chord_symbol(tok@, key, mode) == Some(c@) && c.intervals@.len() >= 1,
            None => chord_symbol(tok@, key, mode) is None,
        },
{
    let t: &[char] = peeled(tok, true);
    if t.len() == 0 {
        return None;
    }
    let acc: usize = if t[0] == 'b' || t[0] == '#' {
        1
    } else {
        0
    };
    let n: usize = count_roman(text::tail(t, acc));
    if n > 0 {
        if let Some(sym) = style::read_chord(text::head(t, acc + n)) {
            return read_roman(sym, text::tail(t, acc + n), key, mode);
        }
    }
    read_letter(t)
}

/// Parses one chord token.
pub fn parse_chord_symbol(tok: &str, key: u8, mode: Mode) -> (r: Option<Chord>)
    ensures
        match r {
            Some(c) => chord_symbol(tok@, key, mode) == Some(c@) && c.intervals@.len() >= 1,
            None => chord_symbol(tok@, key, mode) is None,
        },
{
    let v: Vec<char> = text::chars_of(tok);
    read_chord_symbol(v.as_slice(), key, mode)
}

// ---------------------------------------------------------------- progressions

/// Bundled progressions, roman numerals in the current key.
pub open spec fn preset_named(name: Seq<char>) -> Option<Seq<char>> {
    let l = text::lower(name);
    if l == "12bar"@ || l == "blues"@ {
        Some("I I I I IV IV I I V IV I I"@)
    } else if l == "doowop"@ || l == "50s"@ {
        Some("I vi IV V"@)
    } else if l == "canon"@ || l == "pachelbel"@ {
        Some("I V vi iii IV I IV V"@)
    } else if l == "andalusian"@ {
        Some("i VII VI V"@)
    } else if l == "royal_road"@ || l == "royalroad"@ {
        Some("IV V iii vi"@)
    } else if l == "four_chords"@ || l == "axis"@ {
        Some("I V vi IV"@)
    } else if l == "gothenburg"@ {
        Some("i VI VII i"@)
    } else {
        None
    }
}

pub fn read_preset(name: &[char]) -> (r: Option<&'static str>)
    ensures
        match r {
            Some(s) => preset_named(name@) == Some(s@),
            None => preset_named(name@) is None,
        },
{
    let l: Vec<char> = text::lower_of(name);
    let t: &[char] = l.as_slice();
    if text::is_lit(t, "12bar") || text::is_lit(t, "blues") {
        Some("I I I I IV IV I I V IV I I")
    } else if text::is_lit(t, "doowop") || text::is_lit(t, "50s") {
        Some("I vi IV V")
    } else if text::is_lit(t, "canon") || text::is_lit(t, "pachelbel") {
        Some("I V vi iii IV I IV V")
    } else if text::is_lit(t, "andalusian") {
        Some("i VII VI V")
    } else if text::is_lit(t, "royal_road") || text::is_lit(t, "royalroad") {
        Some("IV V iii vi")
    } else if text::is_lit(t, "four_chords") || text::is_lit(t, "axis") {
        Some("I V vi IV")
    } else if text::is_lit(t, "gothenburg") {
        Some("i VI VII i")
    } else {
        None
    }
}

/// Bundled progressions by name.
pub fn progression_preset(name: &str) -> (r: Option<&'static str>)
    ensures
        match r {
            Some(s) => preset_named(name@) == Some(s@),
            None => preset_named(name@) is None,
        },
{
    let v: Vec<char> = text::chars_of(name);
    read_preset(v.as_slice())
}

/// What is wrong with a progression.
#[derive(Clone, Copy, Debug, PartialEq, Eq, Structural)]
pub enum ProgressionFault {
    /// The token at this place, counted after presets are expanded, names no chord.
    BadChord(usize),
    Empty,
}

/// The chord tokens of a progression: a preset's, where one is named.
pub open spec fn progression_tokens(toks: Seq<Seq<char>>) -> Seq<Seq<char>> {
    if toks.len() == 1 && preset_named(toks[0]) is Some {
        text::pieces(preset_named(toks[0])->0, ' ')
    } else {
        toks
    }
}

/// The chords of the tokens from `i` on, after those in `acc`.
pub open spec fn chords_from(
    acc: Seq<ChordView>,
    toks: Seq<Seq<char>>,
    i: nat,
    key: u8,
    mode: Mode,
) -> Result<Seq<ChordView>, ProgressionFault>
    decreases toks.len() - i,
{
    if i >= toks.len() {
        if acc.len() == 0 {
            Err(ProgressionFault::Empty)
        } else {
            Ok(acc)
        }
    } else {
        let t = peel(toks[i as int], false);
        if t.len() == 0 {
            chords_from(acc, toks, i + 1, key, mode)
        } else {
            match chord_symbol(t, key, mode) {
                Some(c) => chords_from(acc.push(c), toks, i + 1, key, mode),
                None => Err(ProgressionFault::BadChord(i as usize)),
            }
        }
    }
}

pub open spec fn progression(
    toks: Seq<Seq<char>>,
    key: u8,
    mode: Mode,
) -> Result<Seq<ChordView>, ProgressionFault> {
    chords_from(Seq::empty(), progression_tokens(toks), 0, key, mode)
}

pub open spec fn chord_views(v: Seq<Chord>) -> Seq<ChordView> {
    v.map_values(|c: Chord| c@)
}

/// Every chord has at least its root.
pub open spec fn rooted(cs: Seq<ChordView>) -> bool {
    forall|i: int| 0 <= i < cs.len() ==> (#[trigger] cs[i]).intervals.len() >= 1
}

pub fn read_progression(toks: &Vec<&[char]>, key: u8, mode: Mode) -> (r: Result<
    Vec<Chord>,
    ProgressionFault,
>)
    ensures
        match r {
            Ok(v) => progression(text::views(toks@), key, mode) == Ok::<
                Seq<ChordView>,
                ProgressionFault,
            >(chord_views(v@)) && v@.len() >= 1 && rooted(chord_views(v@)),
            Err(e) => progression(text::views(toks@), key, mode) == Err::<
                Seq<ChordView>,
                ProgressionFault,
            >(e),
        },
{
    let ghost given = text::views(toks@);
    let preset: Vec<char>;
    let mut list: Vec<&[char]> = Vec::new();
    if toks.len() == 1 {
        assert(given[0] == toks@[0]@);
        match read_preset(toks[0]) {
            Some(p) => {
                preset = text::chars_of(p);
                list = text::split_on(preset.as_slice(), ' ');
                return read_chords(&list, key, mode, Ghost(given));
            },
            None => {},
        }
    }
    read_chords(toks, key, mode, Ghost(given))
}

fn copy_token(list: &Vec<&[char]>, i: usize) -> (r: Vec<char>)
    ensures
        r@ == token_at(text::views(list@), i as int),
{
    assert(text::views(list@).len() == list@.len());
    if i < list.len() {
        assert(text::views(list@)[i as int] == list@[i as int]@);
        text::copy_of(peeled(list[i], false))
    } else {
        Vec::new()
    }
}

/// A token without its quotes, or nothing where there is none.
pub open spec fn token_at(toks: Seq<Seq<char>>, i: int) -> Seq<char> {
    if 0 <= i < toks.len() {
        peel(toks[i], false)
    } else {
        Seq::empty()
    }
}

/// The token of a progression at a place, presets expanded.
pub fn copy_progression_token(toks: &Vec<&[char]>, i: usize) -> (r: Vec<char>)
    ensures
        r@ == token_at(progression_tokens(text::views(toks@)), i as int),
{
    let ghost given = text::views(toks@);
    assert(given.len() == toks@.len());
    if toks.len() == 1 {
        assert(given[0] == toks@[0]@);
        match read_preset(toks[0]) {
            Some(p) => {
                let preset: Vec<char> = text::chars_of(p);
                let list: Vec<&[char]> = text::split_on(preset.as_slice(), ' ');
                return copy_token(&list, i);
            },
            None => {},
        }
    }
    copy_token(toks, i)
}

fn read_chords(
    list: &Vec<&[char]>,
    key: u8,
    mode: Mode,
    Ghost(given): Ghost<Seq<Seq<char>>>,
) -> (r: Result<Vec<Chord>, ProgressionFault>)
    requires
        text::views(list@) == progression_tokens(given),
    ensures
        match r {
            Ok(v) => progression(given, key, mode) == Ok::<Seq<ChordView>, ProgressionFault>(
                chord_views(v@),
            ) && v@.len() >= 1 && rooted(chord_views(v@)),
            Err(e) => progression(given, key, mode) == Err::<Seq<ChordView>, ProgressionFault>(e),
        },
{
    let ghost all = text::views(list@);
    let mut out: Vec<Chord> = Vec::new();
    assert(chord_views(out@) =~= Seq::<ChordView>::empty());
    let mut i: usize = 0;
    while i < list.len()
        invariant
            i <= list@.len(),
            all == text::views(list@),
            all == progression_tokens(given),
            rooted(chord_views(out@)),
            progression(given, key, mode) == chords_from(
                chord_views(out@),
                all,
                i as nat,
                key,
                mode,
            ),
        decreases list@.len() - i,
    {
        assert(all[i as int] == list@[i as int]@);
        let t: &[char] = peeled(list[i], false);
        if t.len() > 0 {
            match read_chord_symbol(t, key, mode) {
                Some(c) => {
                    let ghost before = out@;
                    out.push(c);
                    assert(chord_views(out@) =~= chord_views(before).push(c@));
                },
                None => {
                    return Err(ProgressionFault::BadChord(i));
                },
            }
        }
        i += 1;
    }
    assert(chord_views(out@).len() == out@.len());
    if out.len() == 0 {
        return Err(ProgressionFault::Empty);
    }
    Ok(out)
}

/// What a slice of string slices stands for.
pub open spec fn str_views(v: Seq<&str>) -> Seq<Seq<char>> {
    v.map_values(|s: &str| s@)
}

/// The characters of each string.
pub fn chars_of_all(v: &[&str]) -> (r: Vec<Vec<char>>)
    ensures
        r@.len() == v@.len(),
        forall|i: int| 0 <= i < r@.len() ==> (#[trigger] r@[i])@ == v@[i]@,
{
    let mut out: Vec<Vec<char>> = Vec::new();
    for i in 0..v.len()
        invariant
            out@.len() == i,
            forall|k: int| 0 <= k < i ==> (#[trigger] out@[k])@ == v@[k]@,
    {
        out.push(text::chars_of(v[i]));
    }
    out
}

/// The vectors as slices.
pub fn slices_of<'a>(v: &'a Vec<Vec<char>>) -> (r: Vec<&'a [char]>)
    ensures
        r@.len() == v@.len(),
        forall|i: int| 0 <= i < r@.len() ==> (#[trigger] r@[i])@ == v@[i]@,
{
    let mut out: Vec<&'a [char]> = Vec::new();
    for i in 0..v.len()
        invariant
            out@.len() == i,
            forall|k: int| 0 <= k < i ==> (#[trigger] out@[k])@ == v@[k]@,
    {
        out.push(v[i].as_slice());
    }
    out
}

/// Parses a progression: a preset name, or chord tokens.
pub fn parse_progression(tokens: &[&str], key: u8, mode: Mode) -> (r: Result<
    Vec<Chord>,
    ProgressionFault,
>)
    ensures
        match r {
            Ok(v) => progression(str_views(tokens@), key, mode) == Ok::<
                Seq<ChordView>,
                ProgressionFault,
            >(chord_views(v@)) && v@.len() >= 1 && rooted(chord_views(v@)),
            Err(e) => progression(str_views(tokens@), key, mode) == Err::<
                Seq<ChordView>,
                ProgressionFault,
            >(e),
        },
{
    let chars: Vec<Vec<char>> = chars_of_all(tokens);
    let toks: Vec<&[char]> = slices_of(&chars);
    assert(text::views(toks@) =~= str_views(tokens@));
    read_progression(&toks, key, mode)
}

} // verus!
