//! Styles: the plug-in files that describe a genre, and the generator that
//! turns one into a song.

use vstd::prelude::*;

use crate::song::Instrument;
use crate::text;

pub mod compose;
pub mod form;
pub mod lines;
pub mod musical;
pub mod parser;
pub mod settings;
pub mod voices;
pub mod words;

pub use self::compose::{
    generate, generate_with_info, report, GenInfo, GenParams, Report,
};
pub use self::parser::split_transpose;

verus! {

/// A roman-numeral chord: scale degree (0-based) with an optional chromatic
/// offset (`bII` is degree 1 flattened), quality from the numeral's case.
#[derive(Clone, Copy, Debug, PartialEq, Eq, Structural)]
pub struct ChordSym {
    pub degree: usize,
    pub accidental: i32,
    pub minor: bool,
}

/// A riff template: a rhythm with the rules that give its hits pitches.
#[derive(Clone, Debug)]
pub struct Riff {
    pub name: String,
    /// One entry per step: whether the riff hits there.
    pub rhythm: Vec<bool>,
    pub contour: String,
    pub harmony: String,
    pub bass: String,
    pub lead_instr: u8,
    pub harm_instr: u8,
    pub bass_instr: u8,
    /// Repeat each pitch this many hits (tremolo pairs).
    pub pair: usize,
    /// Effect applied to every lead hit.
    pub fx: Option<(u8, u8)>,
    /// Octave for the lead line.
    pub octave: i32,
    /// Volume accents: on-beat volume, off-beat volume.
    pub accent: Option<(u8, u8)>,
    /// Probability, in thousandths, that a lead hit (not the first of a
    /// bar) slides in.
    pub slide: i32,
}

#[verifier::ext_equal]
pub struct RiffView {
    pub name: Seq<char>,
    pub rhythm: Seq<bool>,
    pub contour: Seq<char>,
    pub harmony: Seq<char>,
    pub bass: Seq<char>,
    pub lead_instr: u8,
    pub harm_instr: u8,
    pub bass_instr: u8,
    pub pair: usize,
    pub fx: Option<(u8, u8)>,
    pub octave: i32,
    pub accent: Option<(u8, u8)>,
    pub slide: i32,
}

impl View for Riff {
    type V = RiffView;

    open spec fn view(&self) -> RiffView {
        RiffView {
            name: self.name@,
            rhythm: self.rhythm@,
            contour: self.contour@,
            harmony: self.harmony@,
            bass: self.bass@,
            lead_instr: self.lead_instr,
            harm_instr: self.harm_instr,
            bass_instr: self.bass_instr,
            pair: self.pair,
            fx: self.fx,
            octave: self.octave,
            accent: self.accent,
            slide: self.slide,
        }
    }
}

/// A drum pattern: one token per step for the noise and the sample channel.
#[derive(Clone, Debug)]
pub struct Drums {
    pub name: String,
    pub noi: Vec<char>,
    pub dpcm: Vec<char>,
}

#[verifier::ext_equal]
pub struct DrumsView {
    pub name: Seq<char>,
    pub noi: Seq<char>,
    pub dpcm: Seq<char>,
}

impl View for Drums {
    type V = DrumsView;

    open spec fn view(&self) -> DrumsView {
        DrumsView { name: self.name@, noi: self.noi@, dpcm: self.dpcm@ }
    }
}

/// A section recipe.
#[derive(Clone, Debug)]
pub struct Section {
    pub name: String,
    pub bars: Vec<usize>,
    pub riffs: Vec<String>,
    pub drums: Vec<String>,
    pub repeat: usize,
    /// Probability, in thousandths, that this section carries the motif.
    pub motif: i32,
    pub crash_end: bool,
    /// Volume swell from quiet to full across the section's bars.
    pub swell: bool,
}

#[verifier::ext_equal]
pub struct SectionView {
    pub name: Seq<char>,
    pub bars: Seq<usize>,
    pub riffs: Seq<Seq<char>>,
    pub drums: Seq<Seq<char>>,
    pub repeat: usize,
    pub motif: i32,
    pub crash_end: bool,
    pub swell: bool,
}

impl View for Section {
    type V = SectionView;

    open spec fn view(&self) -> SectionView {
        SectionView {
            name: self.name@,
            bars: self.bars@,
            riffs: text::texts(self.riffs@),
            drums: text::texts(self.drums@),
            repeat: self.repeat,
            motif: self.motif,
            crash_end: self.crash_end,
            swell: self.swell,
        }
    }
}

#[derive(Clone, Debug)]
pub struct Progression {
    pub name: String,
    pub chords: Vec<ChordSym>,
}

#[verifier::ext_equal]
pub struct ProgressionView {
    pub name: Seq<char>,
    pub chords: Seq<ChordSym>,
}

impl View for Progression {
    type V = ProgressionView;

    open spec fn view(&self) -> ProgressionView {
        ProgressionView { name: self.name@, chords: self.chords@ }
    }
}

/// A bank slot that generated songs reference, and the drum token that
/// triggers it.
#[derive(Clone, Debug)]
pub struct StyleSample {
    pub name: String,
    pub path: String,
    pub rate: u8,
    pub token: Option<char>,
}

#[verifier::ext_equal]
pub struct StyleSampleView {
    pub name: Seq<char>,
    pub path: Seq<char>,
    pub rate: u8,
    pub token: Option<char>,
}

impl View for StyleSample {
    type V = StyleSampleView;

    open spec fn view(&self) -> StyleSampleView {
        StyleSampleView {
            name: self.name@,
            path: self.path@,
            rate: self.rate,
            token: self.token,
        }
    }
}

/// Scales, progressions, instruments, riffs, drum patterns, section recipes
/// and song forms of one genre.
#[derive(Debug)]
pub struct Style {
    pub name: String,
    pub version: String,
    /// Sample bank by slot (note C-4 plus the slot); empty for the built-in
    /// bank.
    pub samples: Vec<StyleSample>,
    pub tempo_min: u16,
    pub tempo_max: u16,
    pub keys: Vec<u8>,
    pub scales: Vec<(String, Vec<u8>)>,
    pub progressions: Vec<Progression>,
    pub instruments: Vec<(usize, Instrument)>,
    /// Instrument numbers by name; no name occurs twice.
    pub instr_names: Vec<(String, u8)>,
    pub riffs: Vec<Riff>,
    pub drums: Vec<Drums>,
    pub sections: Vec<Section>,
    pub forms: Vec<Vec<String>>,
    pub motif: Vec<i32>,
    pub title_adj: Vec<String>,
    pub title_noun: Vec<String>,
    /// Notes on the noise channel and their instruments.
    pub hat: (u8, u8),
    pub crash: (u8, u8),
    pub open_hat: (u8, u8),
}

#[verifier::ext_equal]
pub struct StyleView {
    pub name: Seq<char>,
    pub version: Seq<char>,
    pub samples: Seq<StyleSampleView>,
    pub tempo_min: u16,
    pub tempo_max: u16,
    pub keys: Seq<u8>,
    pub scales: Seq<(Seq<char>, Seq<u8>)>,
    pub progressions: Seq<ProgressionView>,
    pub instruments: Seq<(usize, Instrument)>,
    pub instr_names: Seq<(Seq<char>, u8)>,
    pub riffs: Seq<RiffView>,
    pub drums: Seq<DrumsView>,
    pub sections: Seq<SectionView>,
    pub forms: Seq<Seq<Seq<char>>>,
    pub motif: Seq<i32>,
    pub title_adj: Seq<Seq<char>>,
    pub title_noun: Seq<Seq<char>>,
    pub hat: (u8, u8),
    pub crash: (u8, u8),
    pub open_hat: (u8, u8),
}

pub open spec fn style_samples(v: Seq<StyleSample>) -> Seq<StyleSampleView> {
    v.map_values(|x: StyleSample| x@)
}

pub open spec fn scale_views(v: Seq<(String, Vec<u8>)>) -> Seq<(Seq<char>, Seq<u8>)> {
    v.map_values(|x: (String, Vec<u8>)| (x.0@, x.1@))
}

pub open spec fn progression_views(v: Seq<Progression>) -> Seq<ProgressionView> {
    v.map_values(|x: Progression| x@)
}

pub open spec fn name_views(v: Seq<(String, u8)>) -> Seq<(Seq<char>, u8)> {
    v.map_values(|x: (String, u8)| (x.0@, x.1))
}

pub open spec fn riff_views(v: Seq<Riff>) -> Seq<RiffView> {
    v.map_values(|x: Riff| x@)
}

pub open spec fn drums_views(v: Seq<Drums>) -> Seq<DrumsView> {
    v.map_values(|x: Drums| x@)
}

pub open spec fn section_views(v: Seq<Section>) -> Seq<SectionView> {
    v.map_values(|x: Section| x@)
}

pub open spec fn form_views(v: Seq<Vec<String>>) -> Seq<Seq<Seq<char>>> {
    v.map_values(|x: Vec<String>| text::texts(x@))
}

impl View for Style {
    type V = StyleView;

    open spec fn view(&self) -> StyleView {
        StyleView {
            name: self.name@,
            version: self.version@,
            samples: style_samples(self.samples@),
            tempo_min: self.tempo_min,
            tempo_max: self.tempo_max,
            keys: self.keys@,
            scales: scale_views(self.scales@),
            progressions: progression_views(self.progressions@),
            instruments: self.instruments@,
            instr_names: name_views(self.instr_names@),
            riffs: riff_views(self.riffs@),
            drums: drums_views(self.drums@),
            sections: section_views(self.sections@),
            forms: form_views(self.forms@),
            motif: self.motif@,
            title_adj: text::texts(self.title_adj@),
            title_noun: text::texts(self.title_noun@),
            hat: self.hat,
            crash: self.crash,
            open_hat: self.open_hat,
        }
    }
}

/// A style with nothing in it: 120 to 140 beats per minute and the usual
/// hats and crash.
pub open spec fn blank_style() -> StyleView {
    StyleView {
        name: Seq::empty(),
        version: Seq::empty(),
        samples: Seq::empty(),
        tempo_min: 120,
        tempo_max: 140,
        keys: Seq::empty(),
        scales: Seq::empty(),
        progressions: Seq::empty(),
        instruments: Seq::empty(),
        instr_names: Seq::empty(),
        riffs: Seq::empty(),
        drums: Seq::empty(),
        sections: Seq::empty(),
        forms: Seq::empty(),
        motif: Seq::empty(),
        title_adj: Seq::empty(),
        title_noun: Seq::empty(),
        hat: (84, 3),
        crash: (72, 4),
        open_hat: (79, 3),
    }
}

/// The first slot from `i` on that a token triggers.
pub open spec fn token_slot(v: Seq<StyleSampleView>, token: char, i: nat) -> Option<nat>
    decreases v.len() - i,
{
    if i >= v.len() {
        None
    } else if v[i as int].token == Some(token) {
        Some(i)
    } else {
        token_slot(v, token, i + 1)
    }
}

/// The sample note of a drum token: with a declared bank, the slot whose
/// token matches; without one, kick, snare and tom.
pub open spec fn token_note(v: Seq<StyleSampleView>, token: char) -> Option<u8> {
    if v.len() == 0 {
        if token == 'k' {
            Some(60u8)
        } else if token == 's' {
            Some(61u8)
        } else if token == 't' {
            Some(62u8)
        } else {
            None
        }
    } else {
        match token_slot(v, token, 0) {
            Some(i) => Some((60 + i) as u8),
            None => None,
        }
    }
}

impl Style {
    pub(crate) fn blank() -> (r: Style)
        ensures
            r@ == blank_style(),
            r.samples@.len() == 0,
    {
        let r: Style = Style {
            name: String::new(),
            version: String::new(),
            samples: Vec::new(),
            tempo_min: 120,
            tempo_max: 140,
            keys: Vec::new(),
            scales: Vec::new(),
            progressions: Vec::new(),
            instruments: Vec::new(),
            instr_names: Vec::new(),
            riffs: Vec::new(),
            drums: Vec::new(),
            sections: Vec::new(),
            forms: Vec::new(),
            motif: Vec::new(),
            title_adj: Vec::new(),
            title_noun: Vec::new(),
            hat: (84, 3),
            crash: (72, 4),
            open_hat: (79, 3),
        };
        assert(r@ =~= blank_style());
        r
    }

    pub(crate) fn slot_of(&self, token: char) -> (r: Option<usize>)
        ensures
            match r {
                Some(i) => token_slot(self@.samples, token, 0) == Some(i as nat) && i
                    < self.samples@.len(),
                None => token_slot(self@.samples, token, 0) is None,
            },
    {
        let ghost all = self@.samples;
        let mut i: usize = 0;
        while i < self.samples.len()
            invariant
                i <= self.samples@.len(),
                all == style_samples(self.samples@),
                all == self@.samples,
                token_slot(all, token, 0) == token_slot(all, token, i as nat),
            decreases self.samples@.len() - i,
        {
            assert(all[i as int] == self.samples@[i as int]@);
            if let Some(c) = self.samples[i].token {
                if c == token {
                    return Some(i);
                }
            }
            i += 1;
        }
        None
    }

    /// The sample note of a drum token.
    pub fn dpcm_note(&self, token: char) -> (r: Option<u8>)
        requires
            self.samples@.len() <= 196,
        ensures
            r == token_note(self@.samples, token),
    {
        assert(self@.samples.len() == self.samples@.len());
        if self.samples.len() == 0 {
            return if token == 'k' {
                Some(60)
            } else if token == 's' {
                Some(61)
            } else if token == 't' {
                Some(62)
            } else {
                None
            };
        }
        match self.slot_of(token) {
            Some(i) => Some(60 + i as u8),
            None => None,
        }
    }
}

/// The degree of an upper-case roman numeral.
pub open spec fn numeral_degree(s: Seq<char>) -> Option<usize> {
    if s == "I"@ {
        Some(0)
    } else if s == "II"@ {
        Some(1)
    } else if s == "III"@ {
        Some(2)
    } else if s == "IV"@ {
        Some(3)
    } else if s == "V"@ {
        Some(4)
    } else if s == "VI"@ {
        Some(5)
    } else if s == "VII"@ {
        Some(6)
    } else {
        None
    }
}

/// The chord a roman numeral names.
pub open spec fn chord_named(tok: Seq<char>) -> Option<ChordSym> {
    let (accidental, rest): (int, Seq<char>) = if tok.len() > 0 && tok[0] == 'b' {
        (-1, tok.skip(1))
    } else if tok.len() > 0 && tok[0] == '#' {
        (1, tok.skip(1))
    } else {
        (0, tok)
    };
    if rest.len() == 0 {
        None
    } else {
        match numeral_degree(text::upper(rest)) {
            Some(degree) => Some(
                ChordSym {
                    degree,
                    accidental: accidental as i32,
                    minor: text::is_lower(rest[0]),
                },
            ),
            None => None,
        }
    }
}

fn read_degree(s: &[char]) -> (r: Option<usize>)
    ensures
        r == numeral_degree(s@),
{
    if text::is_lit(s, "I") {
        Some(0)
    } else if text::is_lit(s, "II") {
        Some(1)
    } else if text::is_lit(s, "III") {
        Some(2)
    } else if text::is_lit(s, "IV") {
        Some(3)
    } else if text::is_lit(s, "V") {
        Some(4)
    } else if text::is_lit(s, "VI") {
        Some(5)
    } else if text::is_lit(s, "VII") {
        Some(6)
    } else {
        None
    }
}

pub fn read_chord(tok: &[char]) -> (r: Option<ChordSym>)
    ensures
        r == chord_named(tok@),
        r is Some ==> r->0.degree <= 6 && -1 <= r->0.accidental <= 1,
{
    let mut accidental: i32 = 0;
    let mut rest: &[char] = tok;
    if tok.len() > 0 && tok[0] == 'b' {
        accidental = -1;
        rest = text::tail(tok, 1);
    } else if tok.len() > 0 && tok[0] == '#' {
        accidental = 1;
        rest = text::tail(tok, 1);
    }
    if rest.len() == 0 {
        return None;
    }
    let minor: bool = 'a' <= rest[0] && rest[0] <= 'z';
    let u: Vec<char> = text::upper_of(rest);
    match read_degree(u.as_slice()) {
        Some(degree) => Some(ChordSym { degree, accidental, minor }),
        None => None,
    }
}

/// The chord a roman numeral names.
pub fn parse_chord(tok: &str) -> (r: Option<ChordSym>)
    ensures
        r == chord_named(tok@),
        r is Some ==> r->0.degree <= 6 && -1 <= r->0.accidental <= 1,
{
    let v: Vec<char> = text::chars_of(tok);
    read_chord(v.as_slice())
}

} // verus!
