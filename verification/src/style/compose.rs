//! Composing a song from a style: form, sections, bars.
//!
//! The song depends only on the style and the parameters. Every bar becomes
//! a phrase; bars with the same notes, instruments and effects share one.
//! The song loops back to what follows the intro.

use vstd::prelude::*;

use crate::gen;
use crate::gen::chord;
use crate::gen::odds;
use crate::gen::Rng;
use crate::song;
use crate::song::{Cell, DpcmRef, DpcmView, Instrument, Phrase, Song, SongView};
use crate::song::{CHANNELS, INSTRUMENTS, STEPS_PER_PHRASE};
use crate::style;
use crate::style::parser;
use crate::style::voices;
use crate::style::voices::Triad;
use crate::style::{ChordSym, Drums, DrumsView, Riff, RiffView};
use crate::style::{Section, SectionView, Style, StyleView};
use crate::text;
use crate::vip;

verus! {

/// What a song is composed with; what is `None` is drawn.
#[derive(Debug)]
pub struct GenParams {
    pub seed: u64,
    pub key: Option<u8>,
    pub bpm: Option<u16>,
    pub scale: Option<String>,
    /// Forces the motif on or off.
    pub motif: Option<bool>,
    pub form: Option<usize>,
    pub driver: Option<(String, String)>,
    pub artist: String,
}

#[verifier::ext_equal]
pub struct ParamsView {
    pub seed: u64,
    pub key: Option<u8>,
    pub bpm: Option<u16>,
    pub scale: Option<Seq<char>>,
    pub motif: Option<bool>,
    pub form: Option<usize>,
    pub driver: Option<(Seq<char>, Seq<char>)>,
    pub artist: Seq<char>,
}

impl View for GenParams {
    type V = ParamsView;

    open spec fn view(&self) -> ParamsView {
        ParamsView {
            seed: self.seed,
            key: self.key,
            bpm: self.bpm,
            scale: match self.scale {
                Some(s) => Some(s@),
                None => None,
            },
            motif: self.motif,
            form: self.form,
            driver: song::driver_view(self.driver),
            artist: self.artist@,
        }
    }
}

impl Default for GenParams {
    fn default() -> (r: GenParams)
        ensures
            r@ == (ParamsView {
                seed: 1,
                key: None,
                bpm: None,
                scale: None,
                motif: None,
                form: None,
                driver: None,
                artist: Seq::empty(),
            }),
    {
        GenParams {
            seed: 1,
            key: None,
            bpm: None,
            scale: None,
            motif: None,
            form: None,
            driver: None,
            artist: String::new(),
        }
    }
}

/// What was chosen for a song.
#[derive(Debug)]
pub struct GenInfo {
    pub key: u8,
    pub scale: String,
    pub progression: String,
    pub form: usize,
    pub motif: bool,
}

#[verifier::ext_equal]
pub struct InfoView {
    pub key: u8,
    pub scale: Seq<char>,
    pub progression: Seq<char>,
    pub form: usize,
    pub motif: bool,
}

impl View for GenInfo {
    type V = InfoView;

    open spec fn view(&self) -> InfoView {
        InfoView {
            key: self.key,
            scale: self.scale@,
            progression: self.progression@,
            form: self.form,
            motif: self.motif,
        }
    }
}

/// The style has no scale of the wanted name.
#[derive(Clone, Copy, Debug, PartialEq, Eq, Structural)]
pub struct NoSuchScale;

// ---------------------------------------------------------------- names

/// Where a name first stands, from `i` on, or the length.
pub open spec fn first_named(names: Seq<Seq<char>>, name: Seq<char>, i: nat) -> nat
    decreases names.len() - i,
{
    if i >= names.len() || names[i as int] == name {
        i
    } else {
        first_named(names, name, i + 1)
    }
}

proof fn lemma_first_named(names: Seq<Seq<char>>, name: Seq<char>, k: nat, i: nat)
    requires
        i <= k <= names.len(),
        k < names.len() ==> names[k as int] == name,
        forall|j: int| i <= j < k ==> #[trigger] names[j] != name,
    ensures
        first_named(names, name, i) == k,
    decreases k - i,
{
    if i < k {
        assert(names[i as int] != name);
        lemma_first_named(names, name, k, i + 1);
    }
}

pub open spec fn scale_names(st: StyleView) -> Seq<Seq<char>> {
    st.scales.map_values(|s: (Seq<char>, Seq<u8>)| s.0)
}

pub open spec fn section_names(st: StyleView) -> Seq<Seq<char>> {
    st.sections.map_values(|s: SectionView| s.name)
}

pub open spec fn riff_names(st: StyleView) -> Seq<Seq<char>> {
    st.riffs.map_values(|r: RiffView| r.name)
}

pub open spec fn drums_names(st: StyleView) -> Seq<Seq<char>> {
    st.drums.map_values(|d: DrumsView| d.name)
}

// ---------------------------------------------------------------- readiness

/// What a style must have for a song to be made of it.
pub open spec fn playable(st: StyleView) -> bool {
    &&& parser::style_fault(st) is None
    &&& st.samples.len() <= 196
    &&& st.keys.len() <= u32::MAX
    &&& st.scales.len() <= u32::MAX
    &&& st.progressions.len() <= u32::MAX
    &&& st.forms.len() <= u32::MAX
    &&& st.title_adj.len() <= u32::MAX
    &&& st.title_noun.len() <= u32::MAX
    &&& forall|i: int|
        0 <= i < st.scales.len() ==> 0 < (#[trigger] st.scales[i]).1.len() <= u32::MAX
    &&& forall|i: int|
        0 <= i < st.progressions.len() ==> (#[trigger] st.progressions[i]).chords.len() > 0
    &&& forall|i: int| 0 <= i < st.instruments.len() ==> (#[trigger] st.instruments[i]).0
        < INSTRUMENTS
    &&& forall|i: int|
        0 <= i < st.riffs.len() ==> voices::riff_ready(#[trigger] st.riffs[i], st.motif)
    &&& forall|i: int| 0 <= i < st.drums.len() ==> drums_ready(#[trigger] st.drums[i])
    &&& forall|i: int| 0 <= i < st.sections.len() ==> section_ready(#[trigger] st.sections[i])
}

pub open spec fn drums_ready(d: DrumsView) -> bool {
    d.noi.len() >= STEPS_PER_PHRASE && d.dpcm.len() >= STEPS_PER_PHRASE
}

pub open spec fn section_ready(s: SectionView) -> bool {
    &&& 0 < s.bars.len() <= u32::MAX
    &&& 0 < s.riffs.len() <= u32::MAX
    &&& s.drums.len() <= u32::MAX
}

// ---------------------------------------------------------------- one bar

/// The volume of step `s` in bar `b`: the riff's accents, and in a section
/// that swells a rise from 6 to 15 over its bars.
pub open spec fn volume_at(r: RiffView, sec: SectionView, b: int, bars: int, s: int) -> u8 {
    let base: int = match r.accent {
        Some((on, off)) => if s % 4 == 0 {
            on as int
        } else {
            off as int
        },
        None => 0,
    };
    if sec.swell && bars > 1 {
        let top = 6 + 9 * b / (bars - 1);
        if base == 0 {
            top as u8
        } else if base * top / 15 < 1 {
            1
        } else {
            (base * top / 15) as u8
        }
    } else {
        base as u8
    }
}

pub open spec fn voice_cell(x: Option<(u8, Option<(u8, u8)>)>, instr: u8, vol: u8) -> Cell {
    match x {
        Some((n, fx)) => Cell { note: Some(n), instr, vol, fx, hold: false },
        None => song::empty_cell(),
    }
}

pub open spec fn plain_cell(x: Option<u8>, instr: u8) -> Cell {
    match x {
        Some(n) => Cell { note: Some(n), instr, vol: 0, fx: None, hold: false },
        None => song::empty_cell(),
    }
}

/// A bar before anything is done to its end.
pub open spec fn bar_rows(
    r: RiffView,
    sec: SectionView,
    b: int,
    bars: int,
    lead: Seq<Option<(u8, Option<(u8, u8)>)>>,
    harm: Seq<Option<(u8, Option<(u8, u8)>)>>,
    bass: Seq<Option<u8>>,
    noi: Seq<Option<(u8, u8)>>,
    dpcm: Seq<Option<u8>>,
) -> Seq<Seq<Cell>> {
    Seq::new(
        STEPS_PER_PHRASE as nat,
        |s: int|
            seq![
                voice_cell(lead[s], r.lead_instr, volume_at(r, sec, b, bars, s)),
                voice_cell(harm[s], r.harm_instr, volume_at(r, sec, b, bars, s)),
                plain_cell(bass[s], r.bass_instr),
                match noi[s] {
                    Some((n, i)) => plain_cell(Some(n), i),
                    None => song::empty_cell(),
                },
                plain_cell(dpcm[s], 0),
            ],
    )
}

/// The last of the first `k` steps that a channel strikes.
pub open spec fn last_struck(g: Seq<Seq<Cell>>, c: int, k: nat) -> Option<nat>
    decreases k,
{
    if k == 0 {
        None
    } else if g[k - 1][c].note is Some {
        Some((k - 1) as nat)
    } else {
        last_struck(g, c, (k - 1) as nat)
    }
}

/// The letter of the retrigger effect.
pub const RETRIG: u8 = 0x52;

/// The grid with the last strike of a channel retriggered.
pub open spec fn ringing(g: Seq<Seq<Cell>>, c: int) -> Seq<Seq<Cell>> {
    match last_struck(g, c, STEPS_PER_PHRASE as nat) {
        Some(s) => song::put_cell(
            g,
            s as int,
            c,
            Cell { fx: Some((RETRIG, 3u8)), ..g[s as int][c] },
        ),
        None => g,
    }
}

/// A bar that rings out: both pulses retrigger their last strike and a crash
/// opens the bar.
pub open spec fn rung_out(g: Seq<Seq<Cell>>, crash: (u8, u8)) -> Seq<Seq<Cell>> {
    song::put_cell(ringing(ringing(g, 0), 1), 0, 3, plain_cell(Some(crash.0), crash.1))
}

/// What a section is made with.
pub struct Recipe {
    pub key: u8,
    pub scale: Seq<u8>,
    pub prog: Seq<ChordSym>,
    pub sec: SectionView,
    pub riff: RiffView,
    pub drums: DrumsView,
    pub bars: nat,
    /// Not the first section of the form.
    pub later: bool,
    pub use_motif: bool,
}

/// One bar of a section, and the generator after it.
pub open spec fn bar_grid(st: StyleView, m: Recipe, b: nat, x: u64) -> (Seq<Seq<Cell>>, u64) {
    let t = voices::triad(m.scale, m.prog[(b % m.prog.len()) as int]);
    let (lead, y) = voices::lead_line(
        m.scale,
        m.key,
        st.motif,
        m.riff,
        t,
        b as int,
        m.use_motif,
        x,
    );
    let harm = voices::harmony_line(m.scale, m.key, m.riff, t, lead);
    let bass = voices::bass_line(m.key, m.riff, t, lead);
    let last = b + 1 == m.bars;
    let noi = voices::noise_line(st, m.drums, b == 0 && m.later);
    let (dpcm, z) = voices::sample_line(st, m.drums, last && m.bars > 1, y);
    let g = bar_rows(m.riff, m.sec, b as int, m.bars as int, lead, harm, bass, noi, dpcm);
    (
        if m.sec.crash_end && last {
            rung_out(g, st.crash)
        } else {
            g
        },
        z,
    )
}

/// The first `k` bars of a section, and the generator after them.
pub open spec fn section_grids(st: StyleView, m: Recipe, x: u64, k: nat) -> (
    Seq<Seq<Seq<Cell>>>,
    u64,
)
    decreases k,
{
    if k == 0 {
        (Seq::empty(), x)
    } else {
        let (gs, y) = section_grids(st, m, x, (k - 1) as nat);
        let (g, z) = bar_grid(st, m, (k - 1) as nat, y);
        (gs.push(g), z)
    }
}

fn volume_of(riff: &Riff, sec: &Section, b: usize, bars: usize, s: usize) -> (r: u8)
    requires
        b < bars,
    ensures
        r == volume_at(riff@, sec@, b as int, bars as int, s as int),
{
    let base: u8 = match riff.accent {
        Some((on, off)) => if s % 4 == 0 {
            on
        } else {
            off
        },
        None => 0,
    };
    if sec.swell && bars > 1 {
        let rise: u128 = 9 * b as u128 / (bars - 1) as u128;
        assert(rise as int == 9 * b as int / (bars as int - 1));
        assert(rise <= 9) by (nonlinear_arith)
            requires
                rise as int == 9 * b as int / (bars as int - 1),
                b < bars,
                bars > 1,
        ;
        let top: u32 = 6 + rise as u32;
        if base == 0 {
            top as u8
        } else {
            assert(base * top <= 255 * 15) by (nonlinear_arith)
                requires
                    base <= 255,
                    top <= 15,
            ;
            let v: u32 = base as u32 * top / 15;
            if v < 1 {
                1
            } else {
                v as u8
            }
        }
    } else {
        base
    }
}

fn voice_cell_of(x: Option<(u8, Option<(u8, u8)>)>, instr: u8, vol: u8) -> (r: Cell)
    ensures
        r == voice_cell(x, instr, vol),
{
    match x {
        Some((n, fx)) => Cell { note: Some(n), instr, vol, fx, hold: false },
        None => Cell::default(),
    }
}

fn plain_cell_of(x: Option<u8>, instr: u8) -> (r: Cell)
    ensures
        r == plain_cell(x, instr),
{
    match x {
        Some(n) => Cell { note: Some(n), instr, vol: 0, fx: None, hold: false },
        None => Cell::default(),
    }
}

fn bar_rows_of(
    riff: &Riff,
    sec: &Section,
    b: usize,
    bars: usize,
    lead: &Vec<Option<(u8, Option<(u8, u8)>)>>,
    harm: &Vec<Option<(u8, Option<(u8, u8)>)>>,
    bass: &Vec<Option<u8>>,
    noi: &Vec<Option<(u8, u8)>>,
    dpcm: &Vec<Option<u8>>,
) -> (r: Phrase)
    requires
        b < bars,
        lead@.len() == STEPS_PER_PHRASE,
        harm@.len() == STEPS_PER_PHRASE,
        bass@.len() == STEPS_PER_PHRASE,
        noi@.len() == STEPS_PER_PHRASE,
        dpcm@.len() == STEPS_PER_PHRASE,
    ensures
        r@ == bar_rows(
            riff@,
            sec@,
            b as int,
            bars as int,
            lead@,
            harm@,
            bass@,
            noi@,
            dpcm@,
        ),
{
    let ghost want = bar_rows(
        riff@,
        sec@,
        b as int,
        bars as int,
        lead@,
        harm@,
        bass@,
        noi@,
        dpcm@,
    );
    let mut p: Phrase = Phrase::default();
    for s in 0..STEPS_PER_PHRASE
        invariant
            b < bars,
            lead@.len() == STEPS_PER_PHRASE,
            harm@.len() == STEPS_PER_PHRASE,
            bass@.len() == STEPS_PER_PHRASE,
            noi@.len() == STEPS_PER_PHRASE,
            dpcm@.len() == STEPS_PER_PHRASE,
            want == bar_rows(
                riff@,
                sec@,
                b as int,
                bars as int,
                lead@,
                harm@,
                bass@,
                noi@,
                dpcm@,
            ),
            forall|j: int| 0 <= j < s ==> #[trigger] p@[j] == want[j],
    {
        let vol: u8 = volume_of(riff, sec, b, bars, s);
        let n: Cell = match noi[s] {
            Some((n, i)) => plain_cell_of(Some(n), i),
            None => Cell::default(),
        };
        let row: [Cell; CHANNELS] = [
            voice_cell_of(lead[s], riff.lead_instr, vol),
            voice_cell_of(harm[s], riff.harm_instr, vol),
            plain_cell_of(bass[s], riff.bass_instr),
            n,
            plain_cell_of(dpcm[s], 0),
        ];
        assert(row@ =~= want[s as int]);
        let ghost before = p;
        p.cells[s] = row;
        assert(p@[s as int] == row@);
        assert forall|j: int| 0 <= j < s implies #[trigger] p@[j] == want[j] by {
            assert(before@[j] == want[j]);
        }
    }
    assert(p@ =~= want);
    p
}

fn ring(p: &mut Phrase, c: usize)
    requires
        c < CHANNELS,
    ensures
        final(p)@ == ringing(old(p)@, c as int),
{
    let ghost g = p@;
    let mut k: usize = STEPS_PER_PHRASE;
    while k > 0
        invariant
            k <= STEPS_PER_PHRASE,
            c < CHANNELS,
            p@ == g,
            g == old(p)@,
            last_struck(g, c as int, STEPS_PER_PHRASE as nat) == last_struck(
                g,
                c as int,
                k as nat,
            ),
        decreases k,
    {
        let x: Cell = p.at(k - 1, c);
        if x.note.is_some() {
            let y: Cell = Cell {
                note: x.note,
                instr: x.instr,
                vol: x.vol,
                fx: Some((RETRIG, 3)),
                hold: x.hold,
            };
            p.put(k - 1, c, y);
            return;
        }
        k -= 1;
    }
}

/// What a section is made with.
pub struct Making<'a> {
    pub key: u8,
    pub scale: &'a Vec<u8>,
    pub prog: &'a Vec<ChordSym>,
    pub sec: &'a Section,
    pub riff: &'a Riff,
    pub drums: &'a Drums,
    pub bars: usize,
    pub later: bool,
    pub use_motif: bool,
}

impl<'a> View for Making<'a> {
    type V = Recipe;

    open spec fn view(&self) -> Recipe {
        Recipe {
            key: self.key,
            scale: self.scale@,
            prog: self.prog@,
            sec: self.sec@,
            riff: self.riff@,
            drums: self.drums@,
            bars: self.bars as nat,
            later: self.later,
            use_motif: self.use_motif,
        }
    }
}

/// What a recipe must have for bars to be made of it.
pub open spec fn recipe_ready(st: StyleView, m: Recipe) -> bool {
    &&& st.samples.len() <= 196
    &&& 0 < m.scale.len() <= u32::MAX
    &&& m.prog.len() > 0
    &&& voices::riff_ready(m.riff, st.motif)
    &&& drums_ready(m.drums)
}

fn make_bar(style: &Style, m: &Making<'_>, b: usize, rng: &mut Rng) -> (r: Phrase)
    requires
        recipe_ready(style@, m@),
        b < m.bars,
    ensures
        (r@, final(rng).state) == bar_grid(style@, m@, b as nat, old(rng).state),
{
    assert(style@.samples.len() == style.samples@.len());
    let sym: ChordSym = m.prog[b % m.prog.len()];
    let t: Triad = voices::triad_of(m.scale, sym);
    let lead: Vec<Option<(u8, Option<(u8, u8)>)>> = voices::lead_bar(
        m.scale,
        m.key,
        &style.motif,
        m.riff,
        t,
        b,
        m.use_motif,
        rng,
    );
    let harm: Vec<Option<(u8, Option<(u8, u8)>)>> = voices::harmony_bar(
        m.scale,
        m.key,
        m.riff,
        t,
        &lead,
    );
    let bass: Vec<Option<u8>> = voices::bass_bar(m.key, m.riff, t, &lead);
    let last: bool = b == m.bars - 1;
    let (noi, dpcm): (Vec<Option<(u8, u8)>>, Vec<Option<u8>>) = voices::drum_cells(
        style,
        m.drums,
        last && m.bars > 1,
        b == 0 && m.later,
        rng,
    );
    let mut p: Phrase = bar_rows_of(m.riff, m.sec, b, m.bars, &lead, &harm, &bass, &noi, &dpcm);
    if m.sec.crash_end && last {
        ring(&mut p, 0);
        ring(&mut p, 1);
        let c: Cell = plain_cell_of(Some(style.crash.0), style.crash.1);
        p.put(0, 3, c);
    }
    p
}

fn make_section(style: &Style, m: &Making<'_>, rng: &mut Rng) -> (r: Vec<Phrase>)
    requires
        recipe_ready(style@, m@),
    ensures
        (song::grids(r@), final(rng).state) == section_grids(
            style@,
            m@,
            old(rng).state,
            m.bars as nat,
        ),
{
    let ghost x = rng.state;
    let mut out: Vec<Phrase> = Vec::new();
    assert(song::grids(out@) =~= Seq::<Seq<Seq<Cell>>>::empty());
    for b in 0..m.bars
        invariant
            recipe_ready(style@, m@),
            (song::grids(out@), rng.state) == section_grids(style@, m@, x, b as nat),
    {
        let p: Phrase = make_bar(style, m, b, rng);
        let ghost before = out@;
        out.push(p);
        assert(song::grids(out@) =~= song::grids(before).push(p@));
    }
    out
}

// ---------------------------------------------------------------- sharing phrases

/// Whether two bars have the same cells.
pub open spec fn same_bar(a: Seq<Seq<Cell>>, b: Seq<Seq<Cell>>) -> bool {
    forall|s: int, c: int|
        0 <= s < STEPS_PER_PHRASE && 0 <= c < CHANNELS ==> #[trigger] a[s][c] == b[s][c]
}

/// Where a bar like `g` first stands, from `i` on, or the length.
pub open spec fn bar_index(ps: Seq<Seq<Seq<Cell>>>, g: Seq<Seq<Cell>>, i: nat) -> nat
    decreases ps.len() - i,
{
    if i >= ps.len() || same_bar(ps[i as int], g) {
        i
    } else {
        bar_index(ps, g, i + 1)
    }
}

/// Phrases and order with a bar played next.
pub open spec fn played_bar(
    s: (Seq<Seq<Seq<Cell>>>, Seq<usize>),
    g: Seq<Seq<Cell>>,
) -> (Seq<Seq<Seq<Cell>>>, Seq<usize>) {
    let k = bar_index(s.0, g, 0);
    (
        if k < s.0.len() {
            s.0
        } else {
            s.0.push(g)
        },
        s.1.push(k as usize),
    )
}

/// The first `k` bars of a section played next.
pub open spec fn played_bars(
    s: (Seq<Seq<Seq<Cell>>>, Seq<usize>),
    gs: Seq<Seq<Seq<Cell>>>,
    k: nat,
) -> (Seq<Seq<Seq<Cell>>>, Seq<usize>)
    decreases k,
{
    if k == 0 {
        s
    } else {
        played_bar(played_bars(s, gs, (k - 1) as nat), gs[k - 1])
    }
}

/// A section played `n` times.
pub open spec fn played_times(
    s: (Seq<Seq<Seq<Cell>>>, Seq<usize>),
    gs: Seq<Seq<Seq<Cell>>>,
    n: nat,
) -> (Seq<Seq<Seq<Cell>>>, Seq<usize>)
    decreases n,
{
    if n == 0 {
        s
    } else {
        played_bars(played_times(s, gs, (n - 1) as nat), gs, gs.len())
    }
}

fn is_same_bar(a: &Phrase, b: &Phrase) -> (r: bool)
    ensures
        r == same_bar(a@, b@),
{
    for s in 0..STEPS_PER_PHRASE
        invariant
            forall|t: int, c: int|
                0 <= t < s && 0 <= c < CHANNELS ==> #[trigger] a@[t][c] == b@[t][c],
    {
        for c in 0..CHANNELS
            invariant
                s < STEPS_PER_PHRASE,
                forall|t: int, d: int|
                    0 <= t < s && 0 <= d < CHANNELS ==> #[trigger] a@[t][d] == b@[t][d],
                forall|d: int| 0 <= d < c ==> #[trigger] a@[s as int][d] == b@[s as int][d],
        {
            if !song::same_cell(a.at(s, c), b.at(s, c)) {
                assert(a@[s as int][c as int] != b@[s as int][c as int]);
                return false;
            }
        }
    }
    true
}

pub fn play_bar(phrases: &mut Vec<Phrase>, order: &mut Vec<usize>, p: &Phrase)
    ensures
        (song::grids(final(phrases)@), final(order)@) == played_bar(
            (song::grids(old(phrases)@), old(order)@),
            p@,
        ),
{
    let ghost ps = song::grids(phrases@);
    assert(ps.len() == phrases@.len());
    let mut k: usize = 0;
    while k < phrases.len() && !is_same_bar(&phrases[k], p)
        invariant
            k <= phrases@.len(),
            ps == song::grids(phrases@),
            ps.len() == phrases@.len(),
            phrases@ == old(phrases)@,
            bar_index(ps, p@, 0) == bar_index(ps, p@, k as nat),
        decreases phrases@.len() - k,
    {
        assert(ps[k as int] == phrases@[k as int]@);
        k += 1;
    }
    assert(k < phrases@.len() ==> ps[k as int] == phrases@[k as int]@);
    if k == phrases.len() {
        let ghost before = phrases@;
        phrases.push(*p);
        assert(song::grids(phrases@) =~= song::grids(before).push(p@));
    }
    order.push(k);
}

fn play_times(phrases: &mut Vec<Phrase>, order: &mut Vec<usize>, gs: &Vec<Phrase>, n: usize)
    ensures
        (song::grids(final(phrases)@), final(order)@) == played_times(
            (song::grids(old(phrases)@), old(order)@),
            song::grids(gs@),
            n as nat,
        ),
{
    let ghost start = (song::grids(phrases@), order@);
    let ghost all = song::grids(gs@);
    assert(all.len() == gs@.len());
    for r in 0..n
        invariant
            all == song::grids(gs@),
            all.len() == gs@.len(),
            start == (song::grids(old(phrases)@), old(order)@),
            (song::grids(phrases@), order@) == played_times(start, all, r as nat),
    {
        let ghost here = (song::grids(phrases@), order@);
        for k in 0..gs.len()
            invariant
                all == song::grids(gs@),
                all.len() == gs@.len(),
                (song::grids(phrases@), order@) == played_bars(here, all, k as nat),
        {
            assert(all[k as int] == gs@[k as int]@);
            play_bar(phrases, order, &gs[k]);
        }
    }
}

// ---------------------------------------------------------------- choices

/// What is settled before the first section.
#[verifier::ext_equal]
pub struct Choice {
    pub key: u8,
    pub scale: int,
    pub bpm: u16,
    pub prog: int,
    pub form: int,
    /// The generator after the choices.
    pub x: u64,
}

pub open spec fn key_choice(st: StyleView, p: ParamsView, x: u64) -> (u8, u64) {
    match p.key {
        Some(k) => (k, x),
        None => (
            st.keys[gen::rng_range(gen::rng_next(x), 0, st.keys.len() as u32) as int],
            gen::rng_next(x),
        ),
    }
}

/// The scale by number; the length where no scale has the wanted name.
pub open spec fn scale_choice(st: StyleView, p: ParamsView, x: u64) -> (int, u64) {
    match p.scale {
        Some(name) => (first_named(scale_names(st), name, 0) as int, x),
        None => (
            gen::rng_range(gen::rng_next(x), 0, st.scales.len() as u32) as int,
            gen::rng_next(x),
        ),
    }
}

pub open spec fn bpm_choice(st: StyleView, p: ParamsView, x: u64) -> (u16, u64) {
    match p.bpm {
        Some(b) => (b, x),
        None => {
            let span = (st.tempo_max - st.tempo_min) / 5 + 1;
            (
                (st.tempo_min + 5 * gen::rng_range(gen::rng_next(x), 0, span as u32)) as u16,
                gen::rng_next(x),
            )
        },
    }
}

pub open spec fn form_choice(st: StyleView, p: ParamsView, x: u64) -> (int, u64) {
    match p.form {
        Some(f) => (
            if f < st.forms.len() {
                f as int
            } else {
                st.forms.len() - 1
            },
            x,
        ),
        None => (
            gen::rng_range(gen::rng_next(x), 0, st.forms.len() as u32) as int,
            gen::rng_next(x),
        ),
    }
}

pub open spec fn choice(st: StyleView, p: ParamsView) -> Choice {
    let (key, x1) = key_choice(st, p, gen::rng_seed(p.seed));
    let (scale, x2) = scale_choice(st, p, x1);
    let (bpm, x3) = bpm_choice(st, p, x2);
    let x4 = gen::rng_next(x3);
    let prog = gen::rng_range(x4, 0, st.progressions.len() as u32) as int;
    let (form, x5) = form_choice(st, p, x4);
    Choice { key, scale, bpm, prog, form, x: x5 }
}

/// Where a section goes in a ranking by motif probability: behind all that
/// are at least as likely.
pub open spec fn rank_place(v: Seq<usize>, secs: Seq<SectionView>, m: i32, i: nat) -> nat
    decreases v.len() - i,
{
    if i >= v.len() || secs[v[i as int] as int].motif < m {
        i
    } else {
        rank_place(v, secs, m, i + 1)
    }
}

/// Those of the first `k` sections that may carry the motif, likeliest first.
pub open spec fn ranked(secs: Seq<SectionView>, k: nat) -> Seq<usize>
    decreases k,
{
    if k == 0 {
        Seq::empty()
    } else {
        let v = ranked(secs, (k - 1) as nat);
        let m = secs[k - 1].motif;
        if m > 0 {
            v.insert(rank_place(v, secs, m, 0) as int, (k - 1) as usize)
        } else {
            v
        }
    }
}

/// The first section in the ranking, from `i` on, that wins its roll, and
/// the generator after the rolls.
pub open spec fn rolled(v: Seq<usize>, secs: Seq<SectionView>, x: u64, i: nat) -> (
    Option<usize>,
    u64,
)
    decreases v.len() - i,
{
    if i >= v.len() {
        (None, x)
    } else {
        let y = gen::rng_next(x);
        if voices::lucky(y, odds::milli_threshold(secs[v[i as int] as int].motif as int) as u64) {
            (Some(v[i as int]), y)
        } else {
            rolled(v, secs, y, i + 1)
        }
    }
}

/// The section that carries the motif, and the generator.
pub open spec fn motif_choice(st: StyleView, p: ParamsView, x: u64) -> (Option<usize>, u64) {
    let on = match p.motif {
        Some(b) => b,
        None => true,
    };
    if on && st.motif.len() > 0 {
        rolled(ranked(st.sections, st.sections.len()), st.sections, x, 0)
    } else {
        (None, x)
    }
}

proof fn lemma_rank_place(v: Seq<usize>, secs: Seq<SectionView>, m: i32, i: nat)
    requires
        i <= v.len(),
    ensures
        i <= rank_place(v, secs, m, i) <= v.len(),
    decreases v.len() - i,
{
    if i < v.len() {
        lemma_rank_place(v, secs, m, i + 1);
    }
}

fn rank_sections(style: &Style) -> (r: Vec<usize>)
    ensures
        r@ == ranked(style@.sections, style@.sections.len()),
        forall|i: int| 0 <= i < r@.len() ==> #[trigger] r@[i] < style.sections@.len(),
{
    let ghost secs = style@.sections;
    assert(secs.len() == style.sections@.len());
    let mut v: Vec<usize> = Vec::new();
    for k in 0..style.sections.len()
        invariant
            secs == style::section_views(style.sections@),
            v@ == ranked(secs, k as nat),
            forall|i: int| 0 <= i < v@.len() ==> #[trigger] v@[i] < k,
    {
        assert(secs[k as int] == style.sections@[k as int]@);
        let m: i32 = style.sections[k].motif;
        if m > 0 {
            let mut i: usize = 0;
            while i < v.len() && style.sections[v[i]].motif >= m
                invariant
                    i <= v@.len(),
                    k <= style.sections@.len(),
                    secs == style::section_views(style.sections@),
                    forall|j: int| 0 <= j < v@.len() ==> #[trigger] v@[j] < k,
                    rank_place(v@, secs, m, 0) == rank_place(v@, secs, m, i as nat),
                decreases v@.len() - i,
            {
                assert(secs[v@[i as int] as int] == style.sections@[v@[i as int] as int]@);
                i += 1;
            }
            assert(i < v@.len() ==> secs[v@[i as int] as int]
                == style.sections@[v@[i as int] as int]@);
            v.insert(i, k);
        }
    }
    v
}

fn settle_motif(style: &Style, p: &GenParams, rng: &mut Rng) -> (r: Option<usize>)
    ensures
        (r, final(rng).state) == motif_choice(style@, p@, old(rng).state),
        r is Some ==> r->0 < style.sections@.len(),
{
    let on: bool = match p.motif {
        Some(b) => b,
        None => true,
    };
    if !on || style.motif.len() == 0 {
        return None;
    }
    let v: Vec<usize> = rank_sections(style);
    let ghost secs = style@.sections;
    let ghost x = rng.state;
    let mut i: usize = 0;
    while i < v.len()
        invariant
            i <= v@.len(),
            secs == style::section_views(style.sections@),
            forall|j: int| 0 <= j < v@.len() ==> #[trigger] v@[j] < style.sections@.len(),
            rolled(v@, secs, x, 0) == rolled(v@, secs, rng.state, i as nat),
            motif_choice(style@, p@, x) == rolled(v@, secs, x, 0),
            x == old(rng).state,
        decreases v@.len() - i,
    {
        assert(secs[v@[i as int] as int] == style.sections@[v@[i as int] as int]@);
        let odd: u64 = odds::milli_odds(style.sections[v[i]].motif);
        if rng.chance(odd) {
            return Some(v[i]);
        }
        i += 1;
    }
    None
}

// ---------------------------------------------------------------- the form

/// A note moved by semitones.
pub open spec fn moved_note(n: u8, by: int) -> u8 {
    chord::clamp(n + by, 24, 119) as u8
}

/// A bar with its pitched channels moved by semitones.
pub open spec fn moved_bar(g: Seq<Seq<Cell>>, by: int) -> Seq<Seq<Cell>> {
    Seq::new(
        g.len(),
        |s: int|
            Seq::new(
                g[s].len(),
                |c: int|
                    if c < 3 && g[s][c].note is Some {
                        Cell { note: Some(moved_note(g[s][c].note->0, by)), ..g[s][c] }
                    } else {
                        g[s][c]
                    },
            ),
    )
}

/// Moving a section moves its pitched channels only: drums and samples stay.
pub proof fn law_transposing_keeps_drums(g: Seq<Seq<Cell>>, by: int, s: int, c: int)
    requires
        0 <= s < g.len(),
        3 <= c < g[s].len(),
    ensures
        moved_bar(g, by)[s][c] == g[s][c],
{
}

pub open spec fn moved_bars(gs: Seq<Seq<Seq<Cell>>>, by: int) -> Seq<Seq<Seq<Cell>>> {
    if by == 0 {
        gs
    } else {
        gs.map_values(|g: Seq<Seq<Cell>>| moved_bar(g, by))
    }
}

fn move_bar(p: &Phrase, by: i32) -> (r: Phrase)
    ensures
        r@ == moved_bar(p@, by as int),
{
    let ghost want = moved_bar(p@, by as int);
    let mut q: Phrase = *p;
    for s in 0..STEPS_PER_PHRASE
        invariant
            want == moved_bar(p@, by as int),
            forall|t: int, d: int|
                0 <= t < s && 0 <= d < CHANNELS ==> #[trigger] q@[t][d] == want[t][d],
            forall|t: int| s <= t < STEPS_PER_PHRASE ==> #[trigger] q@[t] == p@[t],
            forall|t: int| 0 <= t < STEPS_PER_PHRASE ==> (#[trigger] q@[t]).len() == CHANNELS,
            forall|t: int| 0 <= t < STEPS_PER_PHRASE ==> (#[trigger] p@[t]).len() == CHANNELS,
    {
        for c in 0..3
            invariant
                s < STEPS_PER_PHRASE,
                want == moved_bar(p@, by as int),
                forall|t: int, d: int|
                    0 <= t < s && 0 <= d < CHANNELS ==> #[trigger] q@[t][d] == want[t][d],
                forall|t: int| s < t < STEPS_PER_PHRASE ==> #[trigger] q@[t] == p@[t],
                forall|d: int| 0 <= d < c ==> #[trigger] q@[s as int][d] == want[s as int][d],
                forall|d: int| c <= d < CHANNELS ==> #[trigger] q@[s as int][d] == p@[s as int][d],
                forall|t: int| 0 <= t < STEPS_PER_PHRASE ==> (#[trigger] q@[t]).len() == CHANNELS,
                forall|t: int| 0 <= t < STEPS_PER_PHRASE ==> (#[trigger] p@[t]).len() == CHANNELS,
        {
            let x: Cell = p.at(s, c);
            if let Some(n) = x.note {
                let m: i64 = n as i64 + by as i64;
                let k: u8 = if m < 24 {
                    24
                } else if m > 119 {
                    119
                } else {
                    m as u8
                };
                let y: Cell = Cell {
                    note: Some(k),
                    instr: x.instr,
                    vol: x.vol,
                    fx: x.fx,
                    hold: x.hold,
                };
                q.put(s, c, y);
            }
            assert(q@[s as int][c as int] == want[s as int][c as int]);
        }
        assert forall|t: int, d: int| 0 <= t < s + 1 && 0 <= d < CHANNELS implies #[trigger] q@[t][d]
            == want[t][d] by {
            if t == s && d >= 3 {
                assert(want[s as int][d] == p@[s as int][d]);
            }
        }
    }
    assert forall|t: int| 0 <= t < STEPS_PER_PHRASE implies #[trigger] q@[t] == want[t] by {
        assert(q@[t] =~= want[t]);
    }
    assert(q@ =~= want);
    q
}

fn move_bars(gs: &Vec<Phrase>, by: i32) -> (r: Vec<Phrase>)
    ensures
        song::grids(r@) == moved_bars(song::grids(gs@), by as int),
{
    let mut out: Vec<Phrase> = Vec::new();
    for i in 0..gs.len()
        invariant
            out@.len() == i,
            forall|k: int|
                0 <= k < i ==> (#[trigger] out@[k])@ == (if by == 0 {
                    gs@[k]@
                } else {
                    moved_bar(gs@[k]@, by as int)
                }),
    {
        if by == 0 {
            out.push(gs[i]);
        } else {
            out.push(move_bar(&gs[i], by));
        }
    }
    assert(song::grids(out@) =~= moved_bars(song::grids(gs@), by as int));
    out
}

/// The bars of a section already made, from `i` on.
pub open spec fn made_index(v: Seq<(Seq<char>, Seq<Seq<Seq<Cell>>>)>, name: Seq<char>, i: nat) -> Option<
    nat,
>
    decreases v.len() - i,
{
    if i >= v.len() {
        None
    } else if v[i as int].0 == name {
        Some(i)
    } else {
        made_index(v, name, i + 1)
    }
}

/// A song in the making.
#[verifier::ext_equal]
pub struct Draft {
    /// Sections already made, so that one that recurs comes back the same.
    pub made: Seq<(Seq<char>, Seq<Seq<Seq<Cell>>>)>,
    pub phrases: Seq<Seq<Seq<Cell>>>,
    pub order: Seq<usize>,
    pub loop_pos: usize,
    pub x: u64,
}

/// The bars of a section made anew, and the generator.
pub open spec fn realized(
    st: StyleView,
    ch: Choice,
    motif: Option<usize>,
    sec: SectionView,
    later: bool,
    x: u64,
) -> (Seq<Seq<Seq<Cell>>>, u64) {
    let x1 = gen::rng_next(x);
    let x2 = gen::rng_next(x1);
    let x3 = gen::rng_next(x2);
    let bars = sec.bars[gen::rng_range(x1, 0, sec.bars.len() as u32) as int];
    let riff = sec.riffs[gen::rng_range(x2, 0, sec.riffs.len() as u32) as int];
    let drums = if sec.drums.len() == 0 {
        st.drums[0].name
    } else {
        sec.drums[gen::rng_range(x3, 0, sec.drums.len() as u32) as int]
    };
    let m = Recipe {
        key: ch.key,
        scale: st.scales[ch.scale].1,
        prog: st.progressions[ch.prog].chords,
        sec,
        riff: st.riffs[first_named(riff_names(st), riff, 0) as int],
        drums: st.drums[first_named(drums_names(st), drums, 0) as int],
        bars: bars as nat,
        later,
        use_motif: match motif {
            Some(i) => st.sections[i as int].name == sec.name,
            None => false,
        },
    };
    section_grids(
        st,
        m,
        if sec.drums.len() == 0 {
            x2
        } else {
            x3
        },
        bars as nat,
    )
}

/// The draft after one more token of the form.
pub open spec fn form_step(
    st: StyleView,
    ch: Choice,
    motif: Option<usize>,
    d: Draft,
    si: nat,
    tok: Seq<char>,
) -> Draft {
    let (name, by) = parser::transposed(tok);
    let sec = st.sections[first_named(section_names(st), name, 0) as int];
    let (gs, made, y) = match made_index(d.made, name, 0) {
        Some(i) => (d.made[i as int].1, d.made, d.x),
        None => {
            let (gs, y) = realized(st, ch, motif, sec, si > 0, d.x);
            (gs, d.made.push((name, gs)), y)
        },
    };
    let (phrases, order) = played_times(
        (d.phrases, d.order),
        moved_bars(gs, by),
        sec.repeat as nat,
    );
    Draft {
        made,
        phrases,
        order,
        loop_pos: if si == 1 {
            d.order.len() as usize
        } else {
            d.loop_pos
        },
        x: y,
    }
}

/// The draft after the first `k` tokens of the form.
pub open spec fn formed(
    st: StyleView,
    ch: Choice,
    motif: Option<usize>,
    x: u64,
    k: nat,
) -> Draft
    decreases k,
{
    if k == 0 {
        Draft {
            made: Seq::empty(),
            phrases: Seq::empty(),
            order: Seq::empty(),
            loop_pos: 0,
            x,
        }
    } else {
        form_step(
            st,
            ch,
            motif,
            formed(st, ch, motif, x, (k - 1) as nat),
            (k - 1) as nat,
            st.forms[ch.form][k - 1],
        )
    }
}

pub open spec fn made_views(v: Seq<(String, Vec<Phrase>)>) -> Seq<
    (Seq<char>, Seq<Seq<Seq<Cell>>>),
> {
    v.map_values(|m: (String, Vec<Phrase>)| (m.0@, song::grids(m.1@)))
}

fn find_made(v: &Vec<(String, Vec<Phrase>)>, name: &[char]) -> (r: Option<usize>)
    ensures
        match r {
            Some(i) => made_index(made_views(v@), name@, 0) == Some(i as nat) && i < v@.len(),
            None => made_index(made_views(v@), name@, 0) is None,
        },
{
    let ghost all = made_views(v@);
    let mut i: usize = 0;
    while i < v.len()
        invariant
            i <= v@.len(),
            all == made_views(v@),
            made_index(all, name@, 0) == made_index(all, name@, i as nat),
        decreases v@.len() - i,
    {
        assert(all[i as int].0 == v@[i as int].0@);
        if text::is_lit(name, v[i].0.as_str()) {
            return Some(i);
        }
        i += 1;
    }
    None
}

/// A choice made by executable code.
#[derive(Clone, Copy)]
struct Chosen {
    key: u8,
    scale: usize,
    bpm: u16,
    prog: usize,
    form: usize,
}

impl Chosen {
    spec fn is(self, c: Choice, st: StyleView) -> bool {
        &&& self.key == c.key
        &&& self.scale == c.scale
        &&& self.bpm == c.bpm
        &&& self.prog == c.prog
        &&& self.form == c.form
        &&& self.scale < st.scales.len()
        &&& self.prog < st.progressions.len()
        &&& self.form < st.forms.len()
    }
}

fn settle_scale(style: &Style, p: &GenParams, rng: &mut Rng) -> (r: Option<usize>)
    requires
        0 < style@.scales.len() <= u32::MAX,
    ensures
        match r {
            Some(i) => (i as int, final(rng).state) == scale_choice(style@, p@, old(rng).state)
                && i < style@.scales.len(),
            None => scale_choice(style@, p@, old(rng).state).0 >= style@.scales.len(),
        },
{
    assert(style@.scales.len() == style.scales@.len());
    match &p.scale {
        None => Some(rng.range(0, style.scales.len() as u32) as usize),
        Some(name) => {
            let ghost names = scale_names(style@);
            let mut i: usize = 0;
            while i < style.scales.len()
                invariant
                    i <= style.scales@.len(),
                    style@.scales.len() == style.scales@.len(),
                    names == scale_names(style@),
                    p@.scale == Some(name@),
                    rng.state == old(rng).state,
                    first_named(names, name@, 0) == first_named(names, name@, i as nat),
                decreases style.scales@.len() - i,
            {
                assert(names[i as int] == style.scales@[i as int].0@);
                if text::same_str(name.as_str(), style.scales[i].0.as_str()) {
                    return Some(i);
                }
                i += 1;
            }
            None
        },
    }
}

fn settle(style: &Style, p: &GenParams, rng: &mut Rng) -> (r: Option<Chosen>)
    requires
        playable(style@),
        old(rng).state == gen::rng_seed(p.seed),
    ensures
        match r {
            Some(c) => c.is(choice(style@, p@), style@) && final(rng).state == choice(
                style@,
                p@,
            ).x,
            None => choice(style@, p@).scale >= style@.scales.len(),
        },
{
    proof {
        assert(style@.scales.len() == style.scales@.len());
        assert(style@.progressions.len() == style.progressions@.len());
        assert(style@.forms.len() == style.forms@.len());
    }
    let key: u8 = match p.key {
        Some(k) => k,
        None => style.keys[rng.range(0, style.keys.len() as u32) as usize],
    };
    let scale: usize = match settle_scale(style, p, rng) {
        Some(i) => i,
        None => {
            return None;
        },
    };
    let bpm: u16 = match p.bpm {
        Some(b) => b,
        None => {
            let span: u32 = (style.tempo_max - style.tempo_min) as u32 / 5 + 1;
            let n: u32 = rng.range(0, span);
            style.tempo_min + 5 * n as u16
        },
    };
    let prog: usize = rng.range(0, style.progressions.len() as u32) as usize;
    let form: usize = match p.form {
        Some(f) => if f < style.forms.len() {
            f
        } else {
            style.forms.len() - 1
        },
        None => rng.range(0, style.forms.len() as u32) as usize,
    };
    Some(Chosen { key, scale, bpm, prog, form })
}

/// What a valid style's names lead to.
proof fn lemma_section_valid(st: StyleView, i: int, k: nat)
    requires
        k <= i < st.sections.len(),
        parser::section_fault(st, k) is None,
    ensures
        parser::riffs_known(st, st.sections[i]),
        parser::drums_known(st, st.sections[i]),
    decreases i - k,
{
    if k < i {
        lemma_section_valid(st, i, k + 1);
    }
}

fn realize(
    style: &Style,
    c: &Chosen,
    motif: Option<usize>,
    k: usize,
    later: bool,
    rng: &mut Rng,
    Ghost(ch): Ghost<Choice>,
) -> (r: Vec<Phrase>)
    requires
        playable(style@),
        c.is(ch, style@),
        k < style.sections@.len(),
        motif is Some ==> motif->0 < style.sections@.len(),
    ensures
        (song::grids(r@), final(rng).state) == realized(
            style@,
            ch,
            motif,
            style@.sections[k as int],
            later,
            old(rng).state,
        ),
{
    let ghost st = style@;
    let sec: &Section = &style.sections[k];
    proof {
        assert(st.sections[k as int] == sec@);
        assert(st.sections.len() == style.sections@.len());
        assert(st.riffs.len() == style.riffs@.len());
        assert(st.drums.len() == style.drums@.len());
        assert(st.scales.len() == style.scales@.len());
        assert(st.progressions.len() == style.progressions@.len());
        assert(sec@.riffs.len() == sec.riffs@.len());
        assert(sec@.drums.len() == sec.drums@.len());
        lemma_section_valid(st, k as int, 0);
    }
    let bars: usize = sec.bars[rng.range(0, sec.bars.len() as u32) as usize];
    let ri: usize = rng.range(0, sec.riffs.len() as u32) as usize;
    assert(sec@.riffs[ri as int] == sec.riffs@[ri as int]@);
    let riff_name: Vec<char> = text::chars_of(sec.riffs[ri].as_str());
    let r: usize = match style.find_riff(riff_name.as_slice()) {
        Some(r) => r,
        None => {
            assert(parser::has_riff(st, sec@.riffs[ri as int]));
            0
        },
    };
    proof {
        let names = riff_names(st);
        assert forall|j: int| 0 <= j < r implies #[trigger] names[j] != riff_name@ by {
            assert(st.riffs[j].name != riff_name@);
        }
        assert(names[r as int] == riff_name@);
        lemma_first_named(names, riff_name@, r as nat, 0);
    }
    let drums_name: Vec<char> = if sec.drums.len() == 0 {
        assert(st.drums[0].name == style.drums@[0].name@);
        text::chars_of(style.drums[0].name.as_str())
    } else {
        let di: usize = rng.range(0, sec.drums.len() as u32) as usize;
        assert(sec@.drums[di as int] == sec.drums@[di as int]@);
        assert(parser::has_drums(st, sec@.drums[di as int]));
        text::chars_of(sec.drums[di].as_str())
    };
    let d: usize = match style.find_drums(drums_name.as_slice()) {
        Some(d) => d,
        None => {
            assert(parser::has_drums(st, drums_name@));
            0
        },
    };
    proof {
        let names = drums_names(st);
        assert forall|j: int| 0 <= j < d implies #[trigger] names[j] != drums_name@ by {
            assert(st.drums[j].name != drums_name@);
        }
        assert(names[d as int] == drums_name@);
        lemma_first_named(names, drums_name@, d as nat, 0);
    }
    let use_motif: bool = match motif {
        Some(i) => {
            assert(st.sections[i as int].name == style.sections@[i as int].name@);
            text::same_str(style.sections[i].name.as_str(), sec.name.as_str())
        },
        None => false,
    };
    proof {
        assert(st.riffs[r as int] == style.riffs@[r as int]@);
        assert(st.drums[d as int] == style.drums@[d as int]@);
        assert(st.scales[c.scale as int].1 == style.scales@[c.scale as int].1@);
        assert(st.progressions[c.prog as int].chords
            == style.progressions@[c.prog as int].chords@);
    }
    let m: Making<'_> = Making {
        key: c.key,
        scale: &style.scales[c.scale].1,
        prog: &style.progressions[c.prog].chords,
        sec,
        riff: &style.riffs[r],
        drums: &style.drums[d],
        bars,
        later,
        use_motif,
    };
    make_section(style, &m, rng)
}

/// The song that a style and parameters give: see [`composition`].
#[verifier::ext_equal]
pub struct Composed {
    pub song: SongView,
    pub info: InfoView,
}

/// The instruments after the first `k` of a style are put in their slots.
pub open spec fn instruments_of(v: Seq<(usize, Instrument)>, k: nat) -> Seq<Instrument>
    decreases k,
{
    if k == 0 {
        song::default_song().instruments
    } else {
        instruments_of(v, (k - 1) as nat).update(v[k - 1].0 as int, v[k - 1].1)
    }
}

/// A title from the style's words, or none.
pub open spec fn title_of(st: StyleView, x: u64) -> Seq<char> {
    if st.title_adj.len() == 0 || st.title_noun.len() == 0 {
        Seq::empty()
    } else {
        let x1 = gen::rng_next(x);
        let x2 = gen::rng_next(x1);
        st.title_adj[gen::rng_range(x1, 0, st.title_adj.len() as u32) as int] + " "@
            + st.title_noun[gen::rng_range(x2, 0, st.title_noun.len() as u32) as int]
    }
}

pub open spec fn sample_refs(st: StyleView) -> Seq<DpcmView> {
    st.samples.map_values(
        |s: style::StyleSampleView| DpcmView { name: s.name, path: s.path, rate: s.rate },
    )
}

/// The song that a finished draft gives.
pub open spec fn assembled(st: StyleView, p: ParamsView, ch: Choice, d: Draft) -> SongView {
    let top: int = if d.order.len() == 0 {
        0
    } else {
        d.order.len() - 1
    };
    SongView {
        bpm: ch.bpm,
        instruments: instruments_of(st.instruments, st.instruments.len()),
        phrases: d.phrases,
        order: d.order,
        loop_pos: if d.loop_pos < top {
            d.loop_pos
        } else {
            top as usize
        },
        current_phrase: if d.order.len() > 0 {
            d.order[0]
        } else {
            0
        },
        title: title_of(st, d.x),
        artist: p.artist,
        driver: p.driver,
        key_name: vip::key_text(ch.key as int % 12) + " "@ + st.scales[ch.scale].0,
        samples: sample_refs(st),
        ..song::default_song()
    }
}

/// What a style and parameters give, or nothing where the style lacks the
/// wanted scale.
pub open spec fn composition(st: StyleView, p: ParamsView) -> Option<Composed> {
    let ch = choice(st, p);
    if ch.scale >= st.scales.len() {
        None
    } else {
        let (motif, y) = motif_choice(st, p, ch.x);
        let d = formed(st, ch, motif, y, st.forms[ch.form].len());
        Some(
            Composed {
                song: assembled(st, p, ch, d),
                info: InfoView {
                    key: ch.key,
                    scale: st.scales[ch.scale].0,
                    progression: st.progressions[ch.prog].name,
                    form: ch.form as usize,
                    motif: motif is Some,
                },
            },
        )
    }
}

fn title(style: &Style, rng: &mut Rng) -> (r: String)
    requires
        style@.title_adj.len() <= u32::MAX,
        style@.title_noun.len() <= u32::MAX,
    ensures
        r@ == title_of(style@, old(rng).state),
{
    assert(style@.title_adj.len() == style.title_adj@.len());
    assert(style@.title_noun.len() == style.title_noun@.len());
    if style.title_adj.len() == 0 || style.title_noun.len() == 0 {
        return String::new();
    }
    let a: usize = rng.range(0, style.title_adj.len() as u32) as usize;
    let n: usize = rng.range(0, style.title_noun.len() as u32) as usize;
    assert(style@.title_adj[a as int] == style.title_adj@[a as int]@);
    assert(style@.title_noun[n as int] == style.title_noun@[n as int]@);
    let mut t: Vec<char> = text::chars_of(style.title_adj[a].as_str());
    text::put_str(&mut t, " ");
    text::put_str(&mut t, style.title_noun[n].as_str());
    text::string_of(t.as_slice())
}

fn refs_of(style: &Style) -> (r: Vec<DpcmRef>)
    ensures
        song::sample_views(r@) == sample_refs(style@),
{
    let mut out: Vec<DpcmRef> = Vec::new();
    for i in 0..style.samples.len()
        invariant
            out@.len() == i,
            forall|k: int|
                0 <= k < i ==> (#[trigger] out@[k])@ == (DpcmView {
                    name: style.samples@[k].name@,
                    path: style.samples@[k].path@,
                    rate: style.samples@[k].rate,
                }),
    {
        out.push(
            DpcmRef {
                name: style.samples[i].name.clone(),
                path: style.samples[i].path.clone(),
                rate: style.samples[i].rate,
            },
        );
    }
    assert(song::sample_views(out@) =~= sample_refs(style@));
    out
}

fn set_instruments(style: &Style, song: &mut Song)
    requires
        forall|i: int| 0 <= i < style@.instruments.len() ==> (#[trigger] style@.instruments[i]).0
            < INSTRUMENTS,
        old(song)@ == song::default_song(),
    ensures
        final(song)@ == (SongView {
            instruments: instruments_of(style@.instruments, style@.instruments.len()),
            ..old(song)@
        }),
{
    let ghost v = style@.instruments;
    let ghost first = song@;
    for k in 0..style.instruments.len()
        invariant
            v == style.instruments@,
            forall|i: int| 0 <= i < v.len() ==> (#[trigger] v[i]).0 < INSTRUMENTS,
            first == old(song)@,
            song@ == (SongView { instruments: instruments_of(v, k as nat), ..first }),
            song.instruments@ == instruments_of(v, k as nat),
    {
        assert(v[k as int].0 < INSTRUMENTS);
        let (idx, inst): (usize, Instrument) = style.instruments[k];
        song.instruments[idx] = inst;
        assert(song@ =~= SongView { instruments: instruments_of(v, (k + 1) as nat), ..first });
    }
}

/// A song in the making.
struct Drafting {
    made: Vec<(String, Vec<Phrase>)>,
    phrases: Vec<Phrase>,
    order: Vec<usize>,
    loop_pos: usize,
}

impl Drafting {
    spec fn draft(self, x: u64) -> Draft {
        Draft {
            made: made_views(self.made@),
            phrases: song::grids(self.phrases@),
            order: self.order@,
            loop_pos: self.loop_pos,
            x,
        }
    }
}

/// The number of the section a form token names.
fn section_of(style: &Style, name: &[char]) -> (r: usize)
    requires
        parser::has_section(style@, name@),
    ensures
        r == first_named(section_names(style@), name@, 0),
        r < style.sections@.len(),
{
    let ghost st = style@;
    assert(st.sections.len() == style.sections@.len());
    match style.find_section(name) {
        Some(k) => {
            proof {
                let names = section_names(st);
                assert forall|j: int| 0 <= j < k implies #[trigger] names[j] != name@ by {
                    assert(st.sections[j].name != name@);
                }
                assert(names[k as int] == name@);
                lemma_first_named(names, name@, k as nat, 0);
            }
            k
        },
        None => 0,
    }
}

/// The bars of a section, made where they are not there yet; returns their
/// place among those made.
fn section_bars(
    style: &Style,
    c: &Chosen,
    motif: Option<usize>,
    made: &mut Vec<(String, Vec<Phrase>)>,
    rng: &mut Rng,
    name: &[char],
    k: usize,
    later: bool,
    Ghost(ch): Ghost<Choice>,
) -> (r: usize)
    requires
        playable(style@),
        c.is(ch, style@),
        motif is Some ==> motif->0 < style.sections@.len(),
        k < style.sections@.len(),
    ensures
        r < final(made)@.len(),
        ({
            let sec = style@.sections[k as int];
            let gs = song::grids(final(made)@[r as int].1@);
            match made_index(made_views(old(made)@), name@, 0) {
                Some(i) => {
                    &&& gs == made_views(old(made)@)[i as int].1
                    &&& made_views(final(made)@) == made_views(old(made)@)
                    &&& final(rng).state == old(rng).state
                },
                None => {
                    &&& (gs, final(rng).state) == realized(
                        style@,
                        ch,
                        motif,
                        sec,
                        later,
                        old(rng).state,
                    )
                    &&& made_views(final(made)@) == made_views(old(made)@).push((name@, gs))
                },
            }
        }),
{
    match find_made(made, name) {
        Some(i) => {
            assert(made_views(made@)[i as int].1 == song::grids(made@[i as int].1@));
            i
        },
        None => {
            let gs: Vec<Phrase> = realize(style, c, motif, k, later, rng, Ghost(ch));
            let ghost before = made@;
            let ghost gv = song::grids(gs@);
            made.push((text::string_of(name), gs));
            assert(made_views(made@) =~= made_views(before).push((name@, gv)));
            made.len() - 1
        },
    }
}

fn run_token(
    style: &Style,
    c: &Chosen,
    motif: Option<usize>,
    d: &mut Drafting,
    rng: &mut Rng,
    si: usize,
    tok: &str,
    Ghost(ch): Ghost<Choice>,
)
    requires
        playable(style@),
        c.is(ch, style@),
        motif is Some ==> motif->0 < style.sections@.len(),
        parser::has_section(style@, parser::transposed(tok@).0),
    ensures
        final(d).draft(final(rng).state) == form_step(
            style@,
            ch,
            motif,
            old(d).draft(old(rng).state),
            si as nat,
            tok@,
        ),
{
    let word: Vec<char> = text::chars_of(tok);
    let (name, by): (&[char], i32) = parser::read_transpose(word.as_slice());
    let k: usize = section_of(style, name);
    let at: usize = section_bars(
        style,
        c,
        motif,
        &mut d.made,
        rng,
        name,
        k,
        si > 0,
        Ghost(ch),
    );
    let bars: Vec<Phrase> = move_bars(&d.made[at].1, by);
    if si == 1 {
        d.loop_pos = d.order.len();
    }
    assert(style@.sections[k as int] == style.sections@[k as int]@);
    play_times(&mut d.phrases, &mut d.order, &bars, style.sections[k].repeat);
}

fn run_form(
    style: &Style,
    c: &Chosen,
    motif: Option<usize>,
    rng: &mut Rng,
    Ghost(ch): Ghost<Choice>,
) -> (r: Drafting)
    requires
        playable(style@),
        c.is(ch, style@),
        motif is Some ==> motif->0 < style.sections@.len(),
    ensures
        r.draft(final(rng).state) == formed(
            style@,
            ch,
            motif,
            old(rng).state,
            style@.forms[ch.form].len(),
        ),
{
    let ghost st = style@;
    let ghost y = rng.state;
    proof {
        assert(st.forms.len() == style.forms@.len());
        assert(st.forms[c.form as int] == text::texts(style.forms@[c.form as int]@));
        assert(parser::form_known(st, st.forms[c.form as int]));
    }
    let form: &Vec<String> = &style.forms[c.form];
    let ghost toks = st.forms[ch.form];
    let mut d: Drafting = Drafting {
        made: Vec::new(),
        phrases: Vec::new(),
        order: Vec::new(),
        loop_pos: 0,
    };
    assert(d.draft(y) =~= formed(st, ch, motif, y, 0));
    for si in 0..form.len()
        invariant
            st == style@,
            playable(st),
            c.is(ch, st),
            toks == st.forms[ch.form],
            toks == text::texts(form@),
            parser::form_known(st, toks),
            motif is Some ==> motif->0 < style.sections@.len(),
            d.draft(rng.state) == formed(st, ch, motif, y, si as nat),
    {
        assert(toks[si as int] == form@[si as int]@);
        assert(parser::has_section(st, parser::transposed(toks[si as int]).0));
        run_token(style, c, motif, &mut d, rng, si, form[si].as_str(), Ghost(ch));
    }
    assert(toks.len() == form@.len());
    d
}

fn assemble(
    style: &Style,
    p: &GenParams,
    c: &Chosen,
    d: Drafting,
    rng: &mut Rng,
    Ghost(ch): Ghost<Choice>,
) -> (r: Song)
    requires
        playable(style@),
        c.is(ch, style@),
    ensures
        r@ == assembled(style@, p@, ch, d.draft(old(rng).state)),
{
    let ghost st = style@;
    let ghost want = assembled(st, p@, ch, d.draft(rng.state));
    assert(st.scales.len() == style.scales@.len());
    let mut song: Song = Song::default();
    set_instruments(style, &mut song);
    let top: usize = if d.order.len() == 0 {
        0
    } else {
        d.order.len() - 1
    };
    song.bpm = c.bpm;
    song.loop_pos = if d.loop_pos < top {
        d.loop_pos
    } else {
        top
    };
    song.current_phrase = if d.order.len() > 0 {
        d.order[0]
    } else {
        0
    };
    song.phrases = d.phrases;
    song.order = d.order;
    song.title = title(style, rng);
    song.artist = p.artist.clone();
    song.driver = match &p.driver {
        Some((a, b)) => Some((a.clone(), b.clone())),
        None => None,
    };
    assert(st.scales[c.scale as int].0 == style.scales@[c.scale as int].0@);
    let mut key_name: Vec<char> = text::chars_of(vip::key_name(c.key));
    text::put_str(&mut key_name, " ");
    text::put_str(&mut key_name, style.scales[c.scale].0.as_str());
    song.key_name = text::string_of(key_name.as_slice());
    song.samples = refs_of(style);
    assert(song@ =~= want);
    song
}

/// Composes a song from a style, and says what was chosen for it.
pub fn generate_with_info(style: &Style, p: &GenParams) -> (r: Result<(Song, GenInfo), NoSuchScale>)
    requires
        playable(style@),
    ensures
        match r {
            Ok((s, i)) => composition(style@, p@) == Some(Composed { song: s@, info: i@ }),
            Err(_) => composition(style@, p@) is None,
        },
{
    let ghost st = style@;
    let mut rng: Rng = Rng::new(p.seed);
    let c: Chosen = match settle(style, p, &mut rng) {
        Some(c) => c,
        None => {
            return Err(NoSuchScale);
        },
    };
    let ghost ch = choice(st, p@);
    let motif: Option<usize> = settle_motif(style, p, &mut rng);
    let d: Drafting = run_form(style, &c, motif, &mut rng, Ghost(ch));
    let song: Song = assemble(style, p, &c, d, &mut rng, Ghost(ch));
    proof {
        assert(st.scales.len() == style.scales@.len());
        assert(st.progressions.len() == style.progressions@.len());
        assert(st.scales[c.scale as int].0 == style.scales@[c.scale as int].0@);
        assert(st.progressions[c.prog as int].name == style.progressions@[c.prog as int].name@);
    }
    let info: GenInfo = GenInfo {
        key: c.key,
        scale: style.scales[c.scale].0.clone(),
        progression: style.progressions[c.prog].name.clone(),
        form: c.form,
        motif: motif.is_some(),
    };
    proof {
        let want = composition(st, p@)->0;
        assert(song@ =~= want.song);
        assert(info@ =~= want.info);
    }
    Ok((song, info))
}

/// Composes a song from a style.
pub fn generate(style: &Style, p: &GenParams) -> (r: Result<Song, NoSuchScale>)
    requires
        playable(style@),
    ensures
        match r {
            Ok(s) => composition(style@, p@) is Some && composition(style@, p@)->0.song == s@,
            Err(_) => composition(style@, p@) is None,
        },
{
    match generate_with_info(style, p) {
        Ok((s, _)) => Ok(s),
        Err(e) => Err(e),
    }
}

impl Style {
    fn riffs_ready(&self) -> (r: bool)
        ensures
            r == forall|i: int|
                0 <= i < self@.riffs.len() ==> voices::riff_ready(
                    #[trigger] self@.riffs[i],
                    self@.motif,
                ),
    {
        let ghost all = self@.riffs;
        let mut i: usize = 0;
        while i < self.riffs.len()
            invariant
                i <= self.riffs@.len(),
                all == style::riff_views(self.riffs@),
                all == self@.riffs,
                forall|k: int|
                    0 <= k < i ==> voices::riff_ready(#[trigger] all[k], self@.motif),
            decreases self.riffs@.len() - i,
        {
            assert(all[i as int] == self.riffs@[i as int]@);
            if !voices::is_riff_ready(&self.riffs[i], &self.motif) {
                return false;
            }
            i += 1;
        }
        true
    }

    fn drums_are_ready(&self) -> (r: bool)
        ensures
            r == forall|i: int| 0 <= i < self@.drums.len() ==> drums_ready(#[trigger] self@.drums[i]),
    {
        let ghost all = self@.drums;
        let mut i: usize = 0;
        while i < self.drums.len()
            invariant
                i <= self.drums@.len(),
                all == style::drums_views(self.drums@),
                all == self@.drums,
                forall|k: int| 0 <= k < i ==> drums_ready(#[trigger] all[k]),
            decreases self.drums@.len() - i,
        {
            assert(all[i as int] == self.drums@[i as int]@);
            if self.drums[i].noi.len() < STEPS_PER_PHRASE || self.drums[i].dpcm.len()
                < STEPS_PER_PHRASE {
                return false;
            }
            i += 1;
        }
        true
    }

    fn sections_ready(&self) -> (r: bool)
        ensures
            r == forall|i: int|
                0 <= i < self@.sections.len() ==> section_ready(#[trigger] self@.sections[i]),
    {
        let ghost all = self@.sections;
        let mut i: usize = 0;
        while i < self.sections.len()
            invariant
                i <= self.sections@.len(),
                all == style::section_views(self.sections@),
                all == self@.sections,
                forall|k: int| 0 <= k < i ==> section_ready(#[trigger] all[k]),
            decreases self.sections@.len() - i,
        {
            assert(all[i as int] == self.sections@[i as int]@);
            let s: &Section = &self.sections[i];
            assert(s@.riffs.len() == s.riffs@.len());
            assert(s@.drums.len() == s.drums@.len());
            if s.bars.len() == 0 || s.bars.len() > u32::MAX as usize || s.riffs.len() == 0
                || s.riffs.len() > u32::MAX as usize || s.drums.len() > u32::MAX as usize {
                assert(!section_ready(all[i as int]));
                return false;
            }
            i += 1;
        }
        true
    }

    fn parts_ready(&self) -> (r: bool)
        ensures
            r == {
                &&& forall|i: int|
                    0 <= i < self@.scales.len() ==> 0 < (#[trigger] self@.scales[i]).1.len()
                        <= u32::MAX
                &&& forall|i: int|
                    0 <= i < self@.progressions.len() ==> (
                    #[trigger] self@.progressions[i]).chords.len() > 0
                &&& forall|i: int|
                    0 <= i < self@.instruments.len() ==> (#[trigger] self@.instruments[i]).0
                        < INSTRUMENTS
            },
    {
        let ghost scales = self@.scales;
        let mut i: usize = 0;
        while i < self.scales.len()
            invariant
                i <= self.scales@.len(),
                scales == style::scale_views(self.scales@),
                scales == self@.scales,
                forall|k: int| 0 <= k < i ==> 0 < (#[trigger] scales[k]).1.len() <= u32::MAX,
            decreases self.scales@.len() - i,
        {
            assert(scales[i as int].1 == self.scales@[i as int].1@);
            if self.scales[i].1.len() == 0 || self.scales[i].1.len() > u32::MAX as usize {
                assert(!(0 < scales[i as int].1.len() <= u32::MAX));
                return false;
            }
            i += 1;
        }
        let ghost progs = self@.progressions;
        let mut j: usize = 0;
        while j < self.progressions.len()
            invariant
                j <= self.progressions@.len(),
                progs == style::progression_views(self.progressions@),
                progs == self@.progressions,
                forall|k: int| 0 <= k < j ==> (#[trigger] progs[k]).chords.len() > 0,
            decreases self.progressions@.len() - j,
        {
            assert(progs[j as int].chords == self.progressions@[j as int].chords@);
            if self.progressions[j].chords.len() == 0 {
                return false;
            }
            j += 1;
        }
        let mut n: usize = 0;
        while n < self.instruments.len()
            invariant
                n <= self.instruments@.len(),
                forall|k: int| 0 <= k < n ==> (#[trigger] self@.instruments[k]).0 < INSTRUMENTS,
            decreases self.instruments@.len() - n,
        {
            if self.instruments[n].0 >= INSTRUMENTS {
                assert(!(self@.instruments[n as int].0 < INSTRUMENTS));
                return false;
            }
            n += 1;
        }
        true
    }

    /// Whether songs can be made of the style.
    pub fn is_playable(&self) -> (r: bool)
        ensures
            r == playable(self@),
    {
        let top: usize = u32::MAX as usize;
        proof {
            assert(self@.samples.len() == self.samples@.len());
            assert(self@.scales.len() == self.scales@.len());
            assert(self@.progressions.len() == self.progressions@.len());
            assert(self@.forms.len() == self.forms@.len());
            assert(self@.title_adj.len() == self.title_adj@.len());
            assert(self@.title_noun.len() == self.title_noun@.len());
        }
        self.validate().is_none() && self.samples.len() <= 196 && self.keys.len() <= top
            && self.scales.len() <= top && self.progressions.len() <= top && self.forms.len() <= top
            && self.title_adj.len() <= top && self.title_noun.len() <= top && self.parts_ready()
            && self.riffs_ready() && self.drums_are_ready() && self.sections_ready()
    }
}

/// A song keeps to its style's tempos, unless it is told another.
pub proof fn law_tempo_in_range(st: StyleView, p: ParamsView)
    requires
        playable(st),
        composition(st, p) is Some,
    ensures
        p.bpm is Some ==> composition(st, p)->0.song.bpm == p.bpm->0,
        p.bpm is None ==> st.tempo_min <= composition(st, p)->0.song.bpm <= st.tempo_max,
{
    let (key, x1) = key_choice(st, p, gen::rng_seed(p.seed));
    let (scale, x2) = scale_choice(st, p, x1);
    let span = (st.tempo_max - st.tempo_min) / 5 + 1;
    if p.bpm is None {
        let r = gen::rng_range(gen::rng_next(x2), 0, span as u32);
        assert(r < span);
        assert(5 * r <= st.tempo_max - st.tempo_min);
    }
    assert(composition(st, p)->0.song.bpm == bpm_choice(st, p, x2).0);
}

/// A section that a form names again comes back bar for bar: what was made
/// first is what later tokens find.
pub proof fn law_recurring_section_is_the_same(
    st: StyleView,
    ch: Choice,
    motif: Option<usize>,
    d: Draft,
    si: nat,
    tok: Seq<char>,
)
    ensures
        ({
            let name = parser::transposed(tok).0;
            let after = form_step(st, ch, motif, d, si, tok);
            &&& made_index(after.made, name, 0) is Some
            &&& made_index(d.made, name, 0) is Some ==> after.made == d.made && after.x == d.x
        }),
{
    let name = parser::transposed(tok).0;
    let after = form_step(st, ch, motif, d, si, tok);
    if made_index(d.made, name, 0) is None {
        lemma_made_push(d.made, name, after.made.last().1, 0);
    }
}

proof fn lemma_made_push(
    v: Seq<(Seq<char>, Seq<Seq<Seq<Cell>>>)>,
    name: Seq<char>,
    gs: Seq<Seq<Seq<Cell>>>,
    i: nat,
)
    requires
        i <= v.len(),
    ensures
        made_index(v.push((name, gs)), name, i) is Some,
    decreases v.len() - i,
{
    if i < v.len() {
        lemma_made_push(v, name, gs, i + 1);
    }
}

/// Every entry of a composed song's order names one of its phrases.
pub proof fn law_order_stays_in_phrases(
    st: StyleView,
    ch: Choice,
    motif: Option<usize>,
    x: u64,
    k: nat,
)
    requires
        formed(st, ch, motif, x, k).phrases.len() <= usize::MAX,
    ensures
        order_in_range(formed(st, ch, motif, x, k)),
    decreases k,
{
    if k > 0 {
        let d = formed(st, ch, motif, x, (k - 1) as nat);
        let tok = st.forms[ch.form][k - 1];
        let (name, by) = parser::transposed(tok);
        let sec = st.sections[first_named(section_names(st), name, 0) as int];
        let gs = match made_index(d.made, name, 0) {
            Some(i) => d.made[i as int].1,
            None => realized(st, ch, motif, sec, k - 1 > 0, d.x).0,
        };
        lemma_times_in_range((d.phrases, d.order), moved_bars(gs, by), sec.repeat as nat);
        law_order_stays_in_phrases(st, ch, motif, x, (k - 1) as nat);
    }
}

pub open spec fn order_in_range(d: Draft) -> bool {
    forall|i: int| 0 <= i < d.order.len() ==> #[trigger] d.order[i] < d.phrases.len()
}

proof fn lemma_bar_in_range(s: (Seq<Seq<Seq<Cell>>>, Seq<usize>), g: Seq<Seq<Cell>>)
    ensures
        played_bar(s, g).0.len() >= s.0.len(),
        (forall|i: int| 0 <= i < s.1.len() ==> #[trigger] s.1[i] < s.0.len()) && played_bar(
            s,
            g,
        ).0.len() <= usize::MAX ==> (forall|i: int|
            0 <= i < played_bar(s, g).1.len() ==> #[trigger] played_bar(s, g).1[i] < played_bar(
                s,
                g,
            ).0.len()),
{
    lemma_bar_index(s.0, g, 0);
}

proof fn lemma_bar_index(ps: Seq<Seq<Seq<Cell>>>, g: Seq<Seq<Cell>>, i: nat)
    requires
        i <= ps.len(),
    ensures
        i <= bar_index(ps, g, i) <= ps.len(),
    decreases ps.len() - i,
{
    if i < ps.len() {
        lemma_bar_index(ps, g, i + 1);
    }
}

proof fn lemma_bars_in_range(
    s: (Seq<Seq<Seq<Cell>>>, Seq<usize>),
    gs: Seq<Seq<Seq<Cell>>>,
    k: nat,
)
    ensures
        played_bars(s, gs, k).0.len() >= s.0.len(),
        (forall|i: int| 0 <= i < s.1.len() ==> #[trigger] s.1[i] < s.0.len()) && played_bars(
            s,
            gs,
            k,
        ).0.len() <= usize::MAX ==> (forall|i: int|
            0 <= i < played_bars(s, gs, k).1.len() ==> #[trigger] played_bars(s, gs, k).1[i]
                < played_bars(s, gs, k).0.len()),
    decreases k,
{
    if k > 0 {
        lemma_bars_in_range(s, gs, (k - 1) as nat);
        lemma_bar_in_range(played_bars(s, gs, (k - 1) as nat), gs[k - 1]);
    }
}

proof fn lemma_times_in_range(
    s: (Seq<Seq<Seq<Cell>>>, Seq<usize>),
    gs: Seq<Seq<Seq<Cell>>>,
    n: nat,
)
    ensures
        played_times(s, gs, n).0.len() >= s.0.len(),
        (forall|i: int| 0 <= i < s.1.len() ==> #[trigger] s.1[i] < s.0.len()) && played_times(
            s,
            gs,
            n,
        ).0.len() <= usize::MAX ==> (forall|i: int|
            0 <= i < played_times(s, gs, n).1.len() ==> #[trigger] played_times(s, gs, n).1[i]
                < played_times(s, gs, n).0.len()),
    decreases n,
{
    if n > 0 {
        lemma_times_in_range(s, gs, (n - 1) as nat);
        lemma_bars_in_range(played_times(s, gs, (n - 1) as nat), gs, gs.len());
    }
}

// ---------------------------------------------------------------- report

/// A small musical sanity report, for curation.
#[derive(Clone, Copy, Debug, PartialEq, Eq, Structural)]
pub struct Report {
    pub bars: usize,
    pub unique_phrases: usize,
    /// Steps on which the lead strikes, over all bars.
    pub lead_hits: usize,
    pub lead_range: u8,
    pub drum_hits: usize,
}

/// What the first `k` rows of a phrase add up to: lead hits, the lowest and
/// highest lead note, and drum hits.
pub open spec fn tally_rows(
    g: Seq<Seq<Cell>>,
    t: (nat, u8, u8, nat),
    k: nat,
) -> (nat, u8, u8, nat)
    decreases k,
{
    if k == 0 {
        t
    } else {
        let (hits, lo, hi, drums) = tally_rows(g, t, (k - 1) as nat);
        let row = g[k - 1];
        (
            hits + (if row[0].note is Some {
                1nat
            } else {
                0nat
            }),
            match row[0].note {
                Some(n) => if n < lo {
                    n
                } else {
                    lo
                },
                None => lo,
            },
            match row[0].note {
                Some(n) => if n > hi {
                    n
                } else {
                    hi
                },
                None => hi,
            },
            drums + (if row[3].note is Some {
                1nat
            } else {
                0nat
            }) + (if row[4].note is Some {
                1nat
            } else {
                0nat
            }),
        )
    }
}

/// What the first `k` entries of the order add up to.
pub open spec fn tally(s: SongView, k: nat) -> (nat, u8, u8, nat)
    decreases k,
{
    if k == 0 {
        (0, 127, 0, 0)
    } else {
        tally_rows(
            s.phrases[s.order[k - 1] as int],
            tally(s, (k - 1) as nat),
            STEPS_PER_PHRASE as nat,
        )
    }
}

/// Measures a song.
pub fn report(song: &Song) -> (r: Report)
    requires
        song.order@.len() * 32 <= usize::MAX,
        forall|i: int|
            0 <= i < song.order@.len() ==> #[trigger] song.order@[i] < song.phrases@.len(),
    ensures
        r.bars == song.order@.len(),
        r.unique_phrases == song.phrases@.len(),
        ({
            let (hits, lo, hi, drums) = tally(song@, song.order@.len());
            &&& r.lead_hits == hits
            &&& r.lead_range == (if hi < lo {
                0
            } else {
                hi - lo
            })
            &&& r.drum_hits == drums
        }),
{
    let ghost sv = song@;
    let mut hits: usize = 0;
    let mut lo: u8 = 127;
    let mut hi: u8 = 0;
    let mut drums: usize = 0;
    for i in 0..song.order.len()
        invariant
            sv == song@,
            song.order@.len() * 32 <= usize::MAX,
            forall|i: int|
                0 <= i < song.order@.len() ==> #[trigger] song.order@[i] < song.phrases@.len(),
            (hits as nat, lo, hi, drums as nat) == tally(sv, i as nat),
            hits <= 16 * i,
            drums <= 32 * i,
    {
        let p: &Phrase = &song.phrases[song.order[i]];
        let ghost before = (hits as nat, lo, hi, drums as nat);
        assert(sv.phrases[sv.order[i as int] as int] == p@);
        for s in 0..STEPS_PER_PHRASE
            invariant
                i < song.order@.len(),
                song.order@.len() * 32 <= usize::MAX,
                (hits as nat, lo, hi, drums as nat) == tally_rows(p@, before, s as nat),
                hits <= 16 * i + s,
                drums <= 32 * i + 2 * s,
        {
            if let Some(n) = p.at(s, 0).note {
                hits += 1;
                if n < lo {
                    lo = n;
                }
                if n > hi {
                    hi = n;
                }
            }
            if p.at(s, 3).note.is_some() {
                drums += 1;
            }
            if p.at(s, 4).note.is_some() {
                drums += 1;
            }
        }
    }
    Report {
        bars: song.order.len(),
        unique_phrases: song.phrases.len(),
        lead_hits: hits,
        lead_range: if hi < lo {
            0
        } else {
            hi - lo
        },
        drum_hits: drums,
    }
}

} // verus!
