//! What a composed song is made of: the style's own keys, scales, riffs and
//! drums, section after section as the form names them, and a loop that leaves
//! the intro out.

use vstd::prelude::*;

use crate::gen;
use crate::song;
use crate::song::{Cell, Instrument};
use crate::style::compose;
use crate::style::compose::{Choice, Draft, ParamsView, Recipe};
use crate::style::parser;
use crate::style::{SectionView, StyleView};

verus! {

// ---------------------------------------------------------------- phrases in order

/// Whether a song's order plays a bar at a place.
pub open spec fn is_played(
    phrases: Seq<Seq<Seq<Cell>>>,
    order: Seq<usize>,
    i: int,
    g: Seq<Seq<Cell>>,
) -> bool {
    &&& 0 <= i < order.len()
    &&& order[i] < phrases.len()
    &&& compose::same_bar(phrases[order[i] as int], g)
}

/// Whether what was played stays as it was.
pub open spec fn goes_on(
    a: (Seq<Seq<Seq<Cell>>>, Seq<usize>),
    b: (Seq<Seq<Seq<Cell>>>, Seq<usize>),
) -> bool {
    &&& a.0.len() <= b.0.len()
    &&& a.1.len() <= b.1.len()
    &&& forall|i: int| 0 <= i < a.0.len() ==> #[trigger] b.0[i] == a.0[i]
    &&& forall|i: int| 0 <= i < a.1.len() ==> #[trigger] b.1[i] == a.1[i]
}

proof fn lemma_found(ps: Seq<Seq<Seq<Cell>>>, g: Seq<Seq<Cell>>, i: nat)
    requires
        i <= ps.len(),
    ensures
        ({
            let k = compose::bar_index(ps, g, i);
            &&& i <= k <= ps.len()
            &&& k < ps.len() ==> compose::same_bar(ps[k as int], g)
        }),
    decreases ps.len() - i,
{
    if i < ps.len() && !compose::same_bar(ps[i as int], g) {
        lemma_found(ps, g, i + 1);
    }
}

proof fn lemma_played_bar(a: (Seq<Seq<Seq<Cell>>>, Seq<usize>), g: Seq<Seq<Cell>>)
    requires
        compose::played_bar(a, g).0.len() <= usize::MAX,
    ensures
        ({
            let b = compose::played_bar(a, g);
            &&& goes_on(a, b)
            &&& b.1.len() == a.1.len() + 1
            &&& is_played(b.0, b.1, a.1.len() as int, g)
        }),
{
    lemma_found(a.0, g, 0);
}

proof fn lemma_kept(
    a: (Seq<Seq<Seq<Cell>>>, Seq<usize>),
    b: (Seq<Seq<Seq<Cell>>>, Seq<usize>),
    i: int,
    g: Seq<Seq<Cell>>,
)
    requires
        goes_on(a, b),
        is_played(a.0, a.1, i, g),
    ensures
        is_played(b.0, b.1, i, g),
{
    assert(b.1[i] == a.1[i]);
    assert(b.0[a.1[i] as int] == a.0[a.1[i] as int]);
}

proof fn lemma_goes_on(
    a: (Seq<Seq<Seq<Cell>>>, Seq<usize>),
    b: (Seq<Seq<Seq<Cell>>>, Seq<usize>),
    c: (Seq<Seq<Seq<Cell>>>, Seq<usize>),
)
    requires
        goes_on(a, b),
        goes_on(b, c),
    ensures
        goes_on(a, c),
{
    assert forall|i: int| 0 <= i < a.0.len() implies #[trigger] c.0[i] == a.0[i] by {
        assert(b.0[i] == a.0[i]);
    }
    assert forall|i: int| 0 <= i < a.1.len() implies #[trigger] c.1[i] == a.1[i] by {
        assert(b.1[i] == a.1[i]);
    }
}

proof fn lemma_grows(a: (Seq<Seq<Seq<Cell>>>, Seq<usize>), gs: Seq<Seq<Seq<Cell>>>, k: nat)
    ensures
        a.0.len() <= compose::played_bars(a, gs, k).0.len(),
    decreases k,
{
    if k > 0 {
        lemma_grows(a, gs, (k - 1) as nat);
    }
}

proof fn lemma_played_bars(
    a: (Seq<Seq<Seq<Cell>>>, Seq<usize>),
    gs: Seq<Seq<Seq<Cell>>>,
    k: nat,
    j: int,
)
    requires
        k <= gs.len(),
        compose::played_bars(a, gs, k).0.len() <= usize::MAX,
    ensures
        ({
            let b = compose::played_bars(a, gs, k);
            &&& goes_on(a, b)
            &&& b.1.len() == a.1.len() + k
            &&& 0 <= j < k ==> is_played(b.0, b.1, a.1.len() + j, gs[j])
        }),
    decreases k,
{
    if k > 0 {
        let b = compose::played_bars(a, gs, (k - 1) as nat);
        lemma_played_bars(a, gs, (k - 1) as nat, j);
        lemma_played_bar(b, gs[k - 1]);
        let c = compose::played_bars(a, gs, k);
        lemma_goes_on(a, b, c);
        if 0 <= j < k - 1 {
            lemma_kept(b, c, a.1.len() + j, gs[j]);
        }
    }
}

proof fn lemma_played_times(
    a: (Seq<Seq<Seq<Cell>>>, Seq<usize>),
    gs: Seq<Seq<Seq<Cell>>>,
    n: nat,
    rep: int,
    j: int,
)
    requires
        compose::played_times(a, gs, n).0.len() <= usize::MAX,
    ensures
        ({
            let b = compose::played_times(a, gs, n);
            &&& goes_on(a, b)
            &&& b.1.len() == a.1.len() + n * gs.len()
            &&& 0 <= rep < n && 0 <= j < gs.len() ==> is_played(
                b.0,
                b.1,
                a.1.len() + rep * gs.len() + j,
                gs[j],
            )
        }),
    decreases n,
{
    if n > 0 {
        let b = compose::played_times(a, gs, (n - 1) as nat);
        let c = compose::played_times(a, gs, n);
        lemma_grows(b, gs, gs.len());
        lemma_played_times(a, gs, (n - 1) as nat, rep, j);
        lemma_played_bars(b, gs, gs.len(), j);
        lemma_goes_on(a, b, c);
        assert(n * gs.len() == (n - 1) * gs.len() + gs.len()) by (nonlinear_arith)
            requires
                n > 0,
        ;
        if 0 <= rep < n - 1 && 0 <= j < gs.len() {
            lemma_kept(b, c, a.1.len() + rep * gs.len() + j, gs[j]);
        }
    } else {
        assert(n * gs.len() == 0) by (nonlinear_arith)
            requires
                n == 0,
        ;
    }
}

// ---------------------------------------------------------------- the form

proof fn lemma_made(
    v: Seq<(Seq<char>, Seq<Seq<Seq<Cell>>>)>,
    name: Seq<char>,
    gs: Seq<Seq<Seq<Cell>>>,
    i: nat,
)
    requires
        i <= v.len(),
        compose::made_index(v, name, i) is None,
    ensures
        compose::made_index(v.push((name, gs)), name, i) == Some(v.len()),
    decreases v.len() - i,
{
    if i < v.len() {
        lemma_made(v, name, gs, i + 1);
    }
}

/// The bars of a section once a draft has made them.
pub open spec fn bars_of(d: Draft, name: Seq<char>) -> Seq<Seq<Seq<Cell>>> {
    d.made[compose::made_index(d.made, name, 0)->0 as int].1
}

/// A token of the form plays its section's bars in order, as often as the
/// section repeats, moved by the token's semitones. What was played before
/// stays, and the song loops back to where its second section begins.
pub proof fn law_forms_play_their_sections(
    st: StyleView,
    ch: Choice,
    motif: Option<usize>,
    d: Draft,
    si: nat,
    tok: Seq<char>,
    rep: int,
    j: int,
)
    requires
        compose::form_step(st, ch, motif, d, si, tok).phrases.len() <= usize::MAX,
        d.order.len() <= usize::MAX,
    ensures
        ({
            let (name, by) = parser::transposed(tok);
            let after = compose::form_step(st, ch, motif, d, si, tok);
            let bars = bars_of(after, name);
            let times = st.sections[compose::first_named(
                compose::section_names(st),
                name,
                0,
            ) as int].repeat;
            &&& goes_on((d.phrases, d.order), (after.phrases, after.order))
            &&& after.order.len() == d.order.len() + times * bars.len()
            &&& 0 <= rep < times && 0 <= j < bars.len() ==> is_played(
                after.phrases,
                after.order,
                d.order.len() + rep * bars.len() + j,
                if by == 0 {
                    bars[j]
                } else {
                    compose::moved_bar(bars[j], by)
                },
            )
            &&& si == 1 ==> after.loop_pos == d.order.len()
            &&& si != 1 ==> after.loop_pos == d.loop_pos
        }),
{
    let (name, by) = parser::transposed(tok);
    let after = compose::form_step(st, ch, motif, d, si, tok);
    if compose::made_index(d.made, name, 0) is None {
        lemma_made(d.made, name, after.made.last().1, 0);
    }
    let bars = bars_of(after, name);
    let sec = st.sections[compose::first_named(compose::section_names(st), name, 0) as int];
    lemma_played_times(
        (d.phrases, d.order),
        compose::moved_bars(bars, by),
        sec.repeat as nat,
        rep,
        j,
    );
}

/// A song loops back to what follows its first section.
pub proof fn law_the_loop_leaves_the_intro_out(
    st: StyleView,
    ch: Choice,
    motif: Option<usize>,
    x: u64,
    k: nat,
)
    requires
        k >= 2,
        compose::formed(st, ch, motif, x, 1).order.len() <= usize::MAX,
    ensures
        compose::formed(st, ch, motif, x, k).loop_pos == compose::formed(
            st,
            ch,
            motif,
            x,
            1,
        ).order.len(),
    decreases k,
{
    if k > 2 {
        law_the_loop_leaves_the_intro_out(st, ch, motif, x, (k - 1) as nat);
    }
}

// ---------------------------------------------------------------- sections

proof fn lemma_section_grids(st: StyleView, m: Recipe, x: u64, k: nat, j: int)
    requires
        0 <= j < k,
    ensures
        ({
            let gs = compose::section_grids(st, m, x, k).0;
            &&& gs.len() == k
            &&& gs[j] == compose::bar_grid(
                st,
                m,
                j as nat,
                compose::section_grids(st, m, x, j as nat).1,
            ).0
        }),
    decreases k,
{
    reveal_with_fuel(compose::section_grids, 2);
    if j < k - 1 {
        lemma_section_grids(st, m, x, (k - 1) as nat, j);
    } else if k > 1 {
        lemma_section_grids(st, m, x, (k - 1) as nat, 0);
    }
}

proof fn lemma_first_named(names: Seq<Seq<char>>, name: Seq<char>, i: nat, k: int)
    requires
        i <= k < names.len(),
        names[k] == name,
    ensures
        i <= compose::first_named(names, name, i) < names.len(),
        names[compose::first_named(names, name, i) as int] == name,
    decreases names.len() - i,
{
    if names[i as int] != name {
        lemma_first_named(names, name, i + 1, k);
    }
}

/// Whether a recipe is one that a style has for a section, in a song's key,
/// scale and progression.
pub open spec fn is_recipe(m: Recipe, st: StyleView, ch: Choice, sec: SectionView) -> bool {
    &&& m.key == ch.key
    &&& m.scale == st.scales[ch.scale].1
    &&& m.prog == st.progressions[ch.prog].chords
    &&& m.sec == sec
    &&& exists|i: int| 0 <= i < sec.bars.len() && m.bars == #[trigger] sec.bars[i]
    &&& exists|i: int| 0 <= i < sec.riffs.len() && m.riff.name == #[trigger] sec.riffs[i]
    &&& sec.drums.len() > 0 ==> exists|i: int|
        0 <= i < sec.drums.len() && m.drums.name == #[trigger] sec.drums[i]
    &&& sec.drums.len() == 0 ==> m.drums.name == st.drums[0].name
}

/// Whether a style has every riff and all the drums that a section names.
pub open spec fn has_parts(st: StyleView, sec: SectionView) -> bool {
    &&& 0 < sec.bars.len() <= u32::MAX
    &&& 0 < sec.riffs.len() <= u32::MAX
    &&& sec.drums.len() <= u32::MAX
    &&& st.drums.len() > 0
    &&& forall|i: int|
        0 <= i < sec.riffs.len() ==> compose::riff_names(st).contains(#[trigger] sec.riffs[i])
    &&& forall|i: int|
        0 <= i < sec.drums.len() ==> compose::drums_names(st).contains(#[trigger] sec.drums[i])
}

proof fn lemma_range(x: u64, hi: u32)
    requires
        hi > 0,
    ensures
        gen::rng_range(x, 0, hi) < hi,
{
    let v = gen::rng_value(x);
    assert((v % hi) < hi);
}

/// A section is made bar by bar of one of its lengths, one of its riffs and
/// one of its drum patterns, in the key, the scale and over the chords that
/// were chosen for the song. The motif is played in its section only.
pub proof fn law_sections_are_made_of_their_parts(
    st: StyleView,
    ch: Choice,
    motif: Option<usize>,
    sec: SectionView,
    later: bool,
    x: u64,
)
    requires
        has_parts(st, sec),
    ensures
        exists|m: Recipe, y: u64| #[trigger]
            is_recipe(m, st, ch, sec) && m.later == later && (m.use_motif <==> motif is Some
                && st.sections[motif->0 as int].name == sec.name) && compose::realized(
                st,
                ch,
                motif,
                sec,
                later,
                x,
            ) == #[trigger] compose::section_grids(st, m, y, m.bars),
{
    let x1 = gen::rng_next(x);
    let x2 = gen::rng_next(x1);
    let x3 = gen::rng_next(x2);
    lemma_range(x1, sec.bars.len() as u32);
    lemma_range(x2, sec.riffs.len() as u32);
    let ib = gen::rng_range(x1, 0, sec.bars.len() as u32) as int;
    let ir = gen::rng_range(x2, 0, sec.riffs.len() as u32) as int;
    let bars = sec.bars[ib];
    let riff = sec.riffs[ir];
    assert(compose::riff_names(st).contains(riff));
    let k = choose|k: int|
        0 <= k < compose::riff_names(st).len() && compose::riff_names(st)[k] == riff;
    lemma_first_named(compose::riff_names(st), riff, 0, k);
    let drums = if sec.drums.len() == 0 {
        st.drums[0].name
    } else {
        sec.drums[gen::rng_range(x3, 0, sec.drums.len() as u32) as int]
    };
    if sec.drums.len() == 0 {
        assert(compose::drums_names(st)[0] == drums);
        lemma_first_named(compose::drums_names(st), drums, 0, 0);
    } else {
        lemma_range(x3, sec.drums.len() as u32);
        assert(compose::drums_names(st).contains(drums));
        let q = choose|q: int|
            0 <= q < compose::drums_names(st).len() && compose::drums_names(st)[q] == drums;
        lemma_first_named(compose::drums_names(st), drums, 0, q);
    }
    let m = Recipe {
        key: ch.key,
        scale: st.scales[ch.scale].1,
        prog: st.progressions[ch.prog].chords,
        sec,
        riff: st.riffs[compose::first_named(compose::riff_names(st), riff, 0) as int],
        drums: st.drums[compose::first_named(compose::drums_names(st), drums, 0) as int],
        bars: bars as nat,
        later,
        use_motif: match motif {
            Some(i) => st.sections[i as int].name == sec.name,
            None => false,
        },
    };
    assert(m.riff.name == sec.riffs[ir]);
    assert(m.drums.name == drums);
    assert(m.bars == sec.bars[ib]);
    let y = if sec.drums.len() == 0 {
        x2
    } else {
        x3
    };
    assert(is_recipe(m, st, ch, sec));
    assert(compose::realized(st, ch, motif, sec, later, x) == compose::section_grids(
        st,
        m,
        y,
        m.bars,
    ));
}

/// The bars of a section follow its chords one by one, each made where the one
/// before left the generator.
pub proof fn law_sections_are_made_bar_by_bar(st: StyleView, m: Recipe, x: u64, k: nat, j: int)
    requires
        0 <= j < k,
    ensures
        ({
            let gs = compose::section_grids(st, m, x, k).0;
            &&& gs.len() == k
            &&& exists|y: u64| gs[j] == (#[trigger] compose::bar_grid(st, m, j as nat, y)).0
        }),
{
    lemma_section_grids(st, m, x, k, j);
    let y = compose::section_grids(st, m, x, j as nat).1;
    assert(compose::section_grids(st, m, x, k).0[j] == compose::bar_grid(st, m, j as nat, y).0);
}

// ---------------------------------------------------------------- choices

/// Whether a title is one of a style's adjectives and one of its nouns.
pub open spec fn is_title(st: StyleView, title: Seq<char>) -> bool {
    exists|i: int, j: int|
        0 <= i < st.title_adj.len() && 0 <= j < st.title_noun.len() && title
            == #[trigger] st.title_adj[i] + " "@ + #[trigger] st.title_noun[j]
}

/// What is asked for is taken, and what is not is drawn from what the style
/// has: key, scale, progression, form and title.
pub proof fn law_choices_come_from_the_style(st: StyleView, p: ParamsView)
    requires
        0 < st.keys.len() <= u32::MAX,
        0 < st.scales.len() <= u32::MAX,
        0 < st.progressions.len() <= u32::MAX,
        0 < st.forms.len() <= u32::MAX,
        st.title_adj.len() <= u32::MAX,
        st.title_noun.len() <= u32::MAX,
        compose::composition(st, p) is Some,
    ensures
        ({
            let info = compose::composition(st, p)->0.info;
            let song = compose::composition(st, p)->0.song;
            &&& p.key is Some ==> info.key == p.key->0
            &&& p.key is None ==> st.keys.contains(info.key)
            &&& p.scale is Some ==> info.scale == p.scale->0
            &&& exists|i: int| 0 <= i < st.scales.len() && info.scale == (#[trigger] st.scales[i]).0
            &&& exists|i: int|
                0 <= i < st.progressions.len() && info.progression
                    == (#[trigger] st.progressions[i]).name
            &&& info.form < st.forms.len()
            &&& p.form is Some && p.form->0 < st.forms.len() ==> info.form == p.form->0
            &&& p.motif == Some(false) ==> !info.motif
            &&& song.artist == p.artist
            &&& song.driver == p.driver
            &&& st.title_adj.len() > 0 && st.title_noun.len() > 0 ==> is_title(st, song.title)
            &&& st.title_adj.len() == 0 || st.title_noun.len() == 0 ==> song.title.len() == 0
        }),
{
    let x0 = gen::rng_seed(p.seed);
    lemma_range(gen::rng_next(x0), st.keys.len() as u32);
    let (key, x1) = compose::key_choice(st, p, x0);
    lemma_range(gen::rng_next(x1), st.scales.len() as u32);
    let (scale, x2) = compose::scale_choice(st, p, x1);
    let (bpm, x3) = compose::bpm_choice(st, p, x2);
    let x4 = gen::rng_next(x3);
    lemma_range(x4, st.progressions.len() as u32);
    lemma_range(gen::rng_next(x4), st.forms.len() as u32);
    let ch = compose::choice(st, p);
    let c = compose::composition(st, p)->0;
    if p.key is None {
        let i = gen::rng_range(gen::rng_next(x0), 0, st.keys.len() as u32) as int;
        assert(st.keys[i] == c.info.key);
    }
    assert(0 <= ch.scale < st.scales.len()) by {
        if p.scale is Some {
            lemma_named_bound(compose::scale_names(st), p.scale->0, 0);
        }
    }
    if p.scale is Some {
        lemma_named_bound(compose::scale_names(st), p.scale->0, 0);
        assert(compose::scale_names(st)[ch.scale] == st.scales[ch.scale].0);
    }
    assert(c.info.scale == st.scales[ch.scale].0);
    assert(c.info.progression == st.progressions[ch.prog].name);
    let (motif, y) = compose::motif_choice(st, p, ch.x);
    let d = compose::formed(st, ch, motif, y, st.forms[ch.form].len());
    if st.title_adj.len() > 0 && st.title_noun.len() > 0 {
        let t1 = gen::rng_next(d.x);
        let t2 = gen::rng_next(t1);
        lemma_range(t1, st.title_adj.len() as u32);
        lemma_range(t2, st.title_noun.len() as u32);
        let i = gen::rng_range(t1, 0, st.title_adj.len() as u32) as int;
        let j = gen::rng_range(t2, 0, st.title_noun.len() as u32) as int;
        assert(c.song.title == st.title_adj[i] + " "@ + st.title_noun[j]);
    }
}

proof fn lemma_named_bound(names: Seq<Seq<char>>, name: Seq<char>, i: nat)
    requires
        i <= names.len(),
    ensures
        ({
            let k = compose::first_named(names, name, i);
            i <= k <= names.len() && (k < names.len() ==> names[k as int] == name)
        }),
    decreases names.len() - i,
{
    if i < names.len() && names[i as int] != name {
        lemma_named_bound(names, name, i + 1);
    }
}

/// An instrument that a style or a map gives to a slot is the one that the
/// song has there; what comes later wins, and other slots keep their own.
pub proof fn law_instruments_take_their_slots(v: Seq<(usize, Instrument)>, k: nat, i: int)
    requires
        k <= v.len(),
        0 <= i < song::INSTRUMENTS,
        forall|j: int| 0 <= j < v.len() ==> (#[trigger] v[j]).0 < song::INSTRUMENTS,
    ensures
        ({
            let t = compose::instruments_of(v, k);
            &&& t.len() == song::default_song().instruments.len()
            &&& forall|j: int|
                0 <= j < k && (#[trigger] v[j]).0 == i && (forall|q: int|
                    j < q < k ==> (#[trigger] v[q]).0 != i) ==> t[i] == v[j].1
            &&& (forall|j: int| 0 <= j < k ==> (#[trigger] v[j]).0 != i) ==> t[i]
                == song::default_song().instruments[i]
        }),
    decreases k,
{
    if k > 0 {
        law_instruments_take_their_slots(v, (k - 1) as nat, i);
        let a = compose::instruments_of(v, (k - 1) as nat);
        let t = compose::instruments_of(v, k);
        assert(v[k - 1].0 < song::INSTRUMENTS);
        assert forall|j: int|
            0 <= j < k && (#[trigger] v[j]).0 == i && (forall|q: int|
                j < q < k ==> (#[trigger] v[q]).0 != i) implies t[i] == v[j].1 by {
            if j < k - 1 {
                assert(v[k - 1].0 != i);
                assert(a[i] == v[j].1);
            }
        }
    }
}

// ---------------------------------------------------------------- the motif

proof fn lemma_rank_place_parts(v: Seq<usize>, secs: Seq<SectionView>, m: i32, i: nat)
    requires
        i <= v.len(),
        forall|j: int| 0 <= j < i ==> secs[(#[trigger] v[j]) as int].motif >= m,
        forall|p: int, q: int|
            0 <= p < q < v.len() ==> secs[(#[trigger] v[p]) as int].motif >= secs[(
            #[trigger] v[q]) as int].motif,
    ensures
        ({
            let r = compose::rank_place(v, secs, m, i);
            &&& r <= v.len()
            &&& forall|j: int| 0 <= j < r ==> secs[(#[trigger] v[j]) as int].motif >= m
            &&& forall|j: int| r <= j < v.len() ==> secs[(#[trigger] v[j]) as int].motif <= m
        }),
    decreases v.len() - i,
{
    if i < v.len() && secs[v[i as int] as int].motif >= m {
        lemma_rank_place_parts(v, secs, m, i + 1);
    }
}

/// The sections that may carry the motif are all of those with a chance of it
/// and no others, likeliest first.
pub proof fn law_the_likeliest_come_first(secs: Seq<SectionView>, k: nat)
    requires
        k <= secs.len() <= usize::MAX,
    ensures
        ({
            let v = compose::ranked(secs, k);
            &&& forall|i: int|
                0 <= i < v.len() ==> (#[trigger] v[i]) < k && secs[v[i] as int].motif > 0
            &&& forall|p: int, q: int|
                0 <= p < q < v.len() ==> secs[(#[trigger] v[p]) as int].motif >= secs[(
                #[trigger] v[q]) as int].motif
            &&& forall|s: int|
                0 <= s < k && (#[trigger] secs[s]).motif > 0 ==> exists|i: int|
                    0 <= i < v.len() && #[trigger] v[i] == s
        }),
    decreases k,
{
    if k > 0 {
        law_the_likeliest_come_first(secs, (k - 1) as nat);
        let u = compose::ranked(secs, (k - 1) as nat);
        let v = compose::ranked(secs, k);
        let m = secs[k - 1].motif;
        if m > 0 {
            lemma_rank_place_parts(u, secs, m, 0);
            let r = compose::rank_place(u, secs, m, 0) as int;
            assert(v == u.insert(r, (k - 1) as usize));
            assert forall|s: int| 0 <= s < k && (#[trigger] secs[s]).motif > 0 implies exists|i: int|
                0 <= i < v.len() && #[trigger] v[i] == s by {
                if s == k - 1 {
                    assert(v[r] == s);
                } else {
                    let i = choose|i: int| 0 <= i < u.len() && #[trigger] u[i] == s;
                    if i < r {
                        assert(v[i] == s);
                    } else {
                        assert(v[i + 1] == s);
                    }
                }
            }
        }
    }
}

proof fn lemma_rolled(v: Seq<usize>, secs: Seq<SectionView>, x: u64, i: nat)
    ensures
        compose::rolled(v, secs, x, i).0 matches Some(s) ==> v.contains(s),
    decreases v.len() - i,
{
    if i < v.len() {
        lemma_rolled(v, secs, gen::rng_next(x), i + 1);
        assert(v.contains(v[i as int]));
    }
}

/// The motif goes to a section with a chance of it, and to none where it is
/// switched off or the style has none.
pub proof fn law_the_motif_goes_where_it_may(st: StyleView, p: ParamsView, x: u64)
    requires
        st.sections.len() <= usize::MAX,
    ensures
        p.motif == Some(false) || st.motif.len() == 0 ==> compose::motif_choice(st, p, x) == (
            None::<usize>,
            x,
        ),
        compose::motif_choice(st, p, x).0 matches Some(s) ==> s < st.sections.len()
            && st.sections[s as int].motif > 0,
{
    let v = compose::ranked(st.sections, st.sections.len());
    law_the_likeliest_come_first(st.sections, st.sections.len());
    lemma_rolled(v, st.sections, x, 0);
}

} // verus!
