//! What a composed bar sounds like: which notes of the scale each voice plays,
//! on which steps, and how they go together.

use vstd::arithmetic::div_mod::{lemma_fundamental_div_mod, lemma_fundamental_div_mod_converse};
use vstd::prelude::*;

use crate::song;
use crate::song::{Cell, CHANNELS, STEPS_PER_PHRASE};
use crate::style;
use crate::style::compose;
use crate::style::compose::Recipe;
use crate::style::voices;
use crate::style::{ChordSym, StyleView};

verus! {

// ---------------------------------------------------------------- scales

/// Steps of an octave, in ascending order.
pub open spec fn is_scale(scale: Seq<u8>) -> bool {
    &&& scale.len() > 0
    &&& forall|i: int| 0 <= i < scale.len() ==> #[trigger] scale[i] < 12
    &&& forall|i: int, j: int| 0 <= i < j < scale.len() ==> #[trigger] scale[i] < #[trigger] scale[j]
}

/// Whether a note is one of a scale on a key, in any octave.
pub open spec fn in_scale(scale: Seq<u8>, key: u8, x: int) -> bool {
    exists|i: int| 0 <= i < scale.len() && (x - key) % 12 == #[trigger] scale[i]
}

/// How many notes of a scale there are from `lo` up to `hi`.
pub open spec fn notes_between(scale: Seq<u8>, key: u8, lo: int, hi: int) -> nat
    decreases hi - lo,
{
    if lo >= hi {
        0
    } else {
        notes_between(scale, key, lo + 1, hi) + if in_scale(scale, key, lo) {
            1nat
        } else {
            0
        }
    }
}

/// The note of a scale degree; degrees go on through the octaves.
pub open spec fn tone(scale: Seq<u8>, key: u8, d: int) -> int {
    key + 12 + 12 * (d / scale.len() as int) + scale[d % (scale.len() as int)]
}

proof fn lemma_split(n: int, q: int, i: int)
    requires
        0 <= i < n,
    ensures
        (n * q + i) / n == q,
        (n * q + i) % n == i,
{
    assert(n * q + i == q * n + i) by (nonlinear_arith);
    lemma_fundamental_div_mod_converse(q * n + i, n, q, i);
}

proof fn lemma_twelve(q: int, i: int)
    requires
        0 <= i < 12,
    ensures
        (12 * q + i) / 12 == q,
        (12 * q + i) % 12 == i,
{
}

proof fn lemma_tone_in_scale(scale: Seq<u8>, key: u8, d: int)
    requires
        is_scale(scale),
    ensures
        in_scale(scale, key, tone(scale, key, d)),
{
    let n = scale.len() as int;
    let i = d % n;
    assert(0 <= i < n) by (nonlinear_arith)
        requires
            i == d % n,
            n > 0,
    ;
    assert((tone(scale, key, d) - key) % 12 == scale[i]);
}

/// Neighbouring degrees: both notes, and nothing of the scale between them.
proof fn lemma_neighbours(scale: Seq<u8>, key: u8, d: int)
    requires
        is_scale(scale),
    ensures
        tone(scale, key, d) < tone(scale, key, d + 1),
        forall|x: int|
            tone(scale, key, d) < x < tone(scale, key, d + 1) ==> !in_scale(scale, key, x),
{
    let n = scale.len() as int;
    let q = d / n;
    let i = d % n;
    lemma_fundamental_div_mod(d, n);
    assert(0 <= i < n) by (nonlinear_arith)
        requires
            i == d % n,
            n > 0,
    ;
    if i + 1 < n {
        lemma_split(n, q, i + 1);
        assert(scale[i] < scale[i + 1]);
    } else {
        assert(n * (q + 1) == n * q + n) by (nonlinear_arith);
        lemma_split(n, q + 1, 0);
    }
    assert forall|x: int|
        tone(scale, key, d) < x < tone(scale, key, d + 1) implies !in_scale(scale, key, x) by {
        if in_scale(scale, key, x) {
            let j = choose|j: int| 0 <= j < scale.len() && (x - key) % 12 == #[trigger] scale[j];
            let y = x - key;
            let o = y / 12;
            assert(y == 12 * o + scale[j]);
            if i + 1 < n {
                assert(12 * (q + 1) + scale[i] < y < 12 * (q + 1) + scale[i + 1]);
                assert(o == q + 1);
                if j <= i {
                    if j < i {
                        assert(scale[j] < scale[i]);
                    }
                } else if j > i + 1 {
                    assert(scale[i + 1] < scale[j]);
                }
            } else {
                assert(12 * (q + 1) + scale[n - 1] < y < 12 * (q + 2) + scale[0]);
                if j < n - 1 {
                    assert(scale[j] < scale[n - 1]);
                }
                if j > 0 {
                    assert(scale[0] < scale[j]);
                }
                assert(o == q + 1 || o == q + 2);
            }
        }
    }
}

proof fn lemma_between_none(scale: Seq<u8>, key: u8, lo: int, hi: int)
    requires
        forall|x: int| lo <= x < hi ==> !in_scale(scale, key, x),
    ensures
        notes_between(scale, key, lo, hi) == 0,
    decreases hi - lo,
{
    if lo < hi {
        lemma_between_none(scale, key, lo + 1, hi);
    }
}

proof fn lemma_between_adds(scale: Seq<u8>, key: u8, lo: int, mid: int, hi: int)
    requires
        lo <= mid <= hi,
    ensures
        notes_between(scale, key, lo, hi) == notes_between(scale, key, lo, mid) + notes_between(
            scale,
            key,
            mid,
            hi,
        ),
    decreases mid - lo,
{
    if lo < mid {
        lemma_between_adds(scale, key, lo + 1, mid, hi);
    }
}

/// So many degrees up are so many notes of the scale up.
proof fn lemma_degrees_up(scale: Seq<u8>, key: u8, d: int, k: nat)
    requires
        is_scale(scale),
    ensures
        notes_between(scale, key, tone(scale, key, d), tone(scale, key, d + k)) == k,
        tone(scale, key, d) <= tone(scale, key, d + k),
        k > 0 ==> tone(scale, key, d) < tone(scale, key, d + k),
    decreases k,
{
    if k > 0 {
        let e = d + k - 1;
        lemma_degrees_up(scale, key, d, (k - 1) as nat);
        lemma_neighbours(scale, key, e);
        let lo = tone(scale, key, e);
        let hi = tone(scale, key, e + 1);
        lemma_tone_in_scale(scale, key, e);
        lemma_between_none(scale, key, lo + 1, hi);
        lemma_between_adds(scale, key, tone(scale, key, d), lo, hi);
        assert(e + 1 == d + k);
    }
}

/// An octave is as many degrees as the scale has.
proof fn lemma_octave(scale: Seq<u8>, key: u8, d: int)
    requires
        is_scale(scale),
    ensures
        tone(scale, key, d - scale.len()) == tone(scale, key, d) - 12,
{
    let n = scale.len() as int;
    lemma_fundamental_div_mod(d, n);
    let q = d / n;
    let i = d % n;
    assert(0 <= i < n) by (nonlinear_arith)
        requires
            i == d % n,
            n > 0,
    ;
    assert(n * (q - 1) == n * q - n) by (nonlinear_arith);
    lemma_split(n, q - 1, i);
}

/// The scale step that a pitch class is.
proof fn lemma_nearest_in(scale: Seq<u8>, pc: int, i: int, k: nat)
    requires
        is_scale(scale),
        0 <= i < scale.len(),
        scale[i] == pc,
        k <= scale.len(),
    ensures
        i < k ==> voices::nearest_in(scale, pc, k) == (i, 0int),
        i >= k ==> voices::nearest_in(scale, pc, k).1 > 0,
    decreases k,
{
    if k > 0 {
        lemma_nearest_in(scale, pc, i, (k - 1) as nat);
        if k - 1 < i {
            assert(scale[k - 1] < scale[i]);
        } else if k - 1 > i {
            assert(scale[i] < scale[k - 1]);
        }
    }
}

/// The degree of a note of the scale.
proof fn lemma_degree(scale: Seq<u8>, key: u8, x: int)
    requires
        is_scale(scale),
        in_scale(scale, key, x),
    ensures
        tone(scale, key, voices::nearest_degree(scale, x - (key + 12))) == x,
{
    let n = scale.len() as int;
    let semis = x - (key + 12);
    let i = choose|i: int| 0 <= i < scale.len() && (x - key) % 12 == #[trigger] scale[i];
    assert(semis % 12 == scale[i]);
    lemma_nearest_in(scale, semis % 12, i, scale.len());
    let q = semis / 12;
    assert(q * n + i == n * q + i) by (nonlinear_arith);
    lemma_split(n, q, i);
}

/// The degree of a scale step, as semitones above the tonic.
proof fn lemma_step_degree(scale: Seq<u8>, q: int, i: int)
    requires
        is_scale(scale),
        0 <= i < scale.len(),
    ensures
        voices::nearest_degree(scale, 12 * q + scale[i]) == q * scale.len() + i,
{
    lemma_twelve(q, scale[i] as int);
    lemma_nearest_in(scale, scale[i] as int, i, scale.len());
}

/// What lies so many degrees below a note of the scale.
proof fn lemma_below(scale: Seq<u8>, key: u8, lead: u8, k: nat)
    requires
        is_scale(scale),
        0 < k <= scale.len(),
        in_scale(scale, key, lead as int),
        36 <= lead <= 119,
    ensures
        ({
            let m = voices::below_note(scale, key, lead, k as int);
            &&& m < lead
            &&& in_scale(scale, key, m as int)
            &&& notes_between(scale, key, m as int, lead as int) == k
        }),
{
    let e = voices::nearest_degree(scale, lead - (key + 12));
    lemma_degree(scale, key, lead as int);
    let d = e - k;
    let n = scale.len();
    lemma_octave(scale, key, e);
    lemma_degrees_up(scale, key, e - n, (n - k) as nat);
    assert(e - n + (n - k) as nat == d);
    lemma_degrees_up(scale, key, d, k);
    assert(d + k == e);
    lemma_tone_in_scale(scale, key, d);
    let v = tone(scale, key, d);
    assert(24 <= v < lead);
    assert((d / scale.len() as int) * 12 == 12 * (d / scale.len() as int));
    assert(voices::below_note(scale, key, lead, k as int) == v);
}

// ---------------------------------------------------------------- the bar

/// The lead of a bar, step by step.
pub open spec fn lead_of(st: StyleView, m: Recipe, b: nat, x: u64) -> Seq<
    Option<(u8, Option<(u8, u8)>)>,
> {
    voices::lead_line(m.scale, m.key, st.motif, m.riff, chord_of(m, b), b as int, m.use_motif, x).0
}

pub open spec fn chord_of(m: Recipe, b: nat) -> (int, int, int) {
    voices::triad(m.scale, m.prog[(b % m.prog.len()) as int])
}

/// Two cells that differ in their effect at most.
pub open spec fn alike(a: Cell, b: Cell) -> bool {
    a.note == b.note && a.instr == b.instr && a.vol == b.vol && a.hold == b.hold
}

proof fn lemma_last_struck(g: Seq<Seq<Cell>>, c: int, k: nat)
    ensures
        compose::last_struck(g, c, k) matches Some(s) ==> s < k,
    decreases k,
{
    if k > 0 {
        lemma_last_struck(g, c, (k - 1) as nat);
    }
}

proof fn lemma_ringing(g: Seq<Seq<Cell>>, c: int, s: int, k: int)
    requires
        g.len() == STEPS_PER_PHRASE,
        forall|i: int| 0 <= i < g.len() ==> (#[trigger] g[i]).len() == CHANNELS,
        0 <= c < CHANNELS,
        0 <= s < STEPS_PER_PHRASE,
        0 <= k < CHANNELS,
    ensures
        ({
            let h = compose::ringing(g, c);
            &&& h.len() == STEPS_PER_PHRASE
            &&& forall|i: int| 0 <= i < h.len() ==> (#[trigger] h[i]).len() == CHANNELS
            &&& alike(h[s][k], g[s][k])
            &&& k != c ==> h[s][k] == g[s][k]
        }),
{
    lemma_last_struck(g, c, STEPS_PER_PHRASE as nat);
}

/// The generator after a bar's lead.
pub open spec fn after_lead(st: StyleView, m: Recipe, b: nat, x: u64) -> u64 {
    voices::lead_line(
        m.scale,
        m.key,
        st.motif,
        m.riff,
        chord_of(m, b),
        b as int,
        m.use_motif,
        x,
    ).1
}

/// The cells of a bar, voice by voice.
pub proof fn lemma_bar(st: StyleView, m: Recipe, b: nat, x: u64, s: int)
    requires
        0 <= s < STEPS_PER_PHRASE,
    ensures
        ({
            let g = compose::bar_grid(st, m, b, x).0;
            let t = chord_of(m, b);
            let lead = lead_of(st, m, b, x);
            let harm = voices::harmony_line(m.scale, m.key, m.riff, t, lead);
            let bass = voices::bass_line(m.key, m.riff, t, lead);
            let vol = compose::volume_at(m.riff, m.sec, b as int, m.bars as int, s);
            let last = b + 1 == m.bars;
            let noi = voices::noise_line(st, m.drums, b == 0 && m.later);
            &&& g.len() == STEPS_PER_PHRASE && g[s].len() == CHANNELS
            &&& alike(g[s][0], compose::voice_cell(lead[s], m.riff.lead_instr, vol))
            &&& alike(g[s][1], compose::voice_cell(harm[s], m.riff.harm_instr, vol))
            &&& g[s][2] == compose::plain_cell(bass[s], m.riff.bass_instr)
            &&& m.sec.crash_end && last && s == 0 ==> g[s][3] == compose::plain_cell(
                Some(st.crash.0),
                st.crash.1,
            )
            &&& !(m.sec.crash_end && last && s == 0) ==> g[s][3] == (match noi[s] {
                Some((n, i)) => compose::plain_cell(Some(n), i),
                None => song::empty_cell(),
            })
            &&& g[s][4] == compose::plain_cell(
                voices::sample_line(st, m.drums, last && m.bars > 1, after_lead(st, m, b, x)).0[s],
                0,
            )
        }),
{
    let t = chord_of(m, b);
    let lead = lead_of(st, m, b, x);
    let y = voices::lead_line(
        m.scale,
        m.key,
        st.motif,
        m.riff,
        t,
        b as int,
        m.use_motif,
        x,
    ).1;
    let harm = voices::harmony_line(m.scale, m.key, m.riff, t, lead);
    let bass = voices::bass_line(m.key, m.riff, t, lead);
    let last = b + 1 == m.bars;
    let noi = voices::noise_line(st, m.drums, b == 0 && m.later);
    let dpcm = voices::sample_line(st, m.drums, last && m.bars > 1, y).0;
    let g = compose::bar_rows(
        m.riff,
        m.sec,
        b as int,
        m.bars as int,
        lead,
        harm,
        bass,
        noi,
        dpcm,
    );
    assert(g[s].len() == CHANNELS);
    if m.sec.crash_end && last {
        let r = compose::ringing(g, 0);
        lemma_ringing(g, 0, s, 0);
        lemma_ringing(g, 0, s, 1);
        lemma_ringing(g, 0, s, 2);
        lemma_ringing(g, 0, s, 3);
        lemma_ringing(g, 0, s, 4);
        lemma_ringing(r, 1, s, 0);
        lemma_ringing(r, 1, s, 1);
        lemma_ringing(r, 1, s, 2);
        lemma_ringing(r, 1, s, 3);
        lemma_ringing(r, 1, s, 4);
    }
}

// ---------------------------------------------------------------- harmony

/// The second voice goes along with the lead: it sounds where the lead does,
/// on its own instrument and as loud. A `third` is the second note of the
/// scale below the lead's and a `sixth` the fifth; `unison` is the lead's own
/// note; `root` and `fifth` are notes of the chord.
pub proof fn law_harmony_goes_with_the_lead(st: StyleView, m: Recipe, b: nat, x: u64, s: int)
    requires
        0 <= s < STEPS_PER_PHRASE,
        is_scale(m.scale),
    ensures
        ({
            let g = compose::bar_grid(st, m, b, x).0;
            let lead = g[s][0].note;
            let harm = g[s][1].note;
            let h = m.riff.harmony;
            &&& lead is None ==> harm is None
            &&& lead is Some && h == "unison"@ ==> harm == lead
            &&& lead is Some && (h == "third"@ || h == "sixth"@ || h == "fifth"@ || h == "root"@ || h
                == "unison"@) ==> harm is Some && g[s][1].instr == m.riff.harm_instr && g[s][1].vol
                == g[s][0].vol
            &&& lead is Some && in_scale(m.scale, m.key, lead->0 as int) && 36 <= lead->0 <= 119 ==> {
                &&& h == "third"@ && m.scale.len() >= 2 ==> {
                    &&& harm->0 < lead->0
                    &&& in_scale(m.scale, m.key, harm->0 as int)
                    &&& notes_between(m.scale, m.key, harm->0 as int, lead->0 as int) == 2
                }
                &&& h == "sixth"@ && m.scale.len() >= 5 ==> {
                    &&& harm->0 < lead->0
                    &&& in_scale(m.scale, m.key, harm->0 as int)
                    &&& notes_between(m.scale, m.key, harm->0 as int, lead->0 as int) == 5
                }
            }
            &&& h == "none"@ ==> harm is None
        }),
{
    reveal_strlit("third");
    reveal_strlit("sixth");
    reveal_strlit("fifth");
    reveal_strlit("root");
    reveal_strlit("unison");
    reveal_strlit("none");
    assert("sixth"@[0] == 's' && "fifth"@[0] == 'f' && "third"@[0] == 't' && "root"@[0] == 'r');
    assert("unison"@[0] == 'u' && "none"@[0] == 'n');
    lemma_bar(st, m, b, x, s);
    let lead = lead_of(st, m, b, x);
    if let Some((n, fx)) = lead[s] {
        if in_scale(m.scale, m.key, n as int) && 36 <= n <= 119 {
            if m.scale.len() >= 2 {
                lemma_below(m.scale, m.key, n, 2);
            }
            if m.scale.len() >= 5 {
                lemma_below(m.scale, m.key, n, 5);
            }
        }
    }
}

/// The scale step that a chord's symbol is on.
pub open spec fn chord_step(scale: Seq<u8>, sym: ChordSym) -> int {
    if sym.degree < scale.len() {
        sym.degree as int
    } else {
        scale.len() - 1
    }
}

/// A harmony on the chord plays its root, or its fifth, an octave below where
/// the lead's octave begins.
pub proof fn law_harmony_on_the_chord(st: StyleView, m: Recipe, b: nat, x: u64, s: int)
    requires
        0 <= s < STEPS_PER_PHRASE,
        is_scale(m.scale),
        m.prog.len() > 0,
        m.key < 12,
        2 <= m.riff.octave <= 7,
        m.prog[(b % m.prog.len()) as int].accidental == 0,
        compose::bar_grid(st, m, b, x).0[s][0].note is Some,
    ensures
        ({
            let g = compose::bar_grid(st, m, b, x).0;
            let i = chord_step(m.scale, m.prog[(b % m.prog.len()) as int]);
            let low = 12 * m.riff.octave + m.key;
            &&& m.riff.harmony == "root"@ ==> g[s][1].note->0 == low + m.scale[i]
            &&& m.riff.harmony == "fifth"@ ==> {
                &&& (g[s][1].note->0 - m.key) % 12 == m.scale[(i + 4) % (m.scale.len() as int)]
                &&& g[s][1].note->0 >= low
            }
        }),
{
    reveal_strlit("third");
    reveal_strlit("sixth");
    reveal_strlit("fifth");
    reveal_strlit("root");
    reveal_strlit("unison");
    assert("sixth"@[0] == 's' && "fifth"@[0] == 'f' && "third"@[0] == 't' && "root"@[0] == 'r');
    assert("unison"@[0] == 'u');
    lemma_bar(st, m, b, x, s);
    let i = chord_step(m.scale, m.prog[(b % m.prog.len()) as int]);
    let n = m.scale.len() as int;
    assert(0 <= (i + 4) % n < n) by (nonlinear_arith)
        requires
            n > 0,
    ;
    assert(m.scale[(i + 4) % n] < 12);
    assert(m.scale[i] < 12);
}

// ---------------------------------------------------------------- lead

/// How many of the first `k` steps a rhythm strikes.
pub open spec fn strikes_before(rhythm: Seq<bool>, k: nat) -> nat
    decreases k,
{
    if k == 0 {
        0
    } else {
        strikes_before(rhythm, (k - 1) as nat) + if rhythm[k - 1] {
            1nat
        } else {
            0
        }
    }
}

pub proof fn lemma_hits(rhythm: Seq<bool>, s: nat, k: nat)
    requires
        s <= k,
    ensures
        voices::hits_below(rhythm, s).len() == strikes_before(rhythm, s),
        s < k && rhythm[s as int] ==> strikes_before(rhythm, s) < voices::hits_below(
            rhythm,
            k,
        ).len(),
        strikes_before(rhythm, s) <= voices::hits_below(rhythm, k).len(),
    decreases k,
{
    if s < k {
        lemma_hits(rhythm, s, (k - 1) as nat);
    } else if k > 0 {
        lemma_hits(rhythm, (k - 1) as nat, (k - 1) as nat);
    }
}

proof fn lemma_hit_notes(
    scale: Seq<u8>,
    key: u8,
    ps: Seq<int>,
    octave: int,
    fx: Option<(u8, u8)>,
    slide: i32,
    x: u64,
    k: nat,
    j: int,
)
    requires
        0 <= j < k,
    ensures
        voices::hit_notes(scale, key, ps, octave, fx, slide, x, k).0.len() == k,
        voices::hit_notes(scale, key, ps, octave, fx, slide, x, k).0[j].0 == voices::degree_note(
            scale,
            key,
            ps[j],
            octave,
        ),
        fx is Some ==> voices::hit_notes(scale, key, ps, octave, fx, slide, x, k).0[j].1 == fx,
    decreases k,
{
    reveal_with_fuel(voices::hit_notes, 2);
    if j < k - 1 {
        lemma_hit_notes(scale, key, ps, octave, fx, slide, x, (k - 1) as nat, j);
    } else if k > 1 {
        lemma_hit_notes(scale, key, ps, octave, fx, slide, x, (k - 1) as nat, 0);
    }
}

/// The degrees that a bar's lead plays.
pub open spec fn lead_degrees(st: StyleView, m: Recipe, b: nat, x: u64) -> Seq<int> {
    voices::pitches(
        voices::contour_for(m.riff, st.motif, m.use_motif),
        voices::hits_below(m.riff.rhythm, STEPS_PER_PHRASE as nat),
        voices::degrees(m.scale, chord_of(m, b)),
        m.riff.pair as nat,
        st.motif,
        b as int,
        x,
    ).0
}

pub proof fn lemma_lead(st: StyleView, m: Recipe, b: nat, x: u64, s: int)
    requires
        0 <= s < STEPS_PER_PHRASE,
    ensures
        ({
            let lead = lead_of(st, m, b, x);
            let j = strikes_before(m.riff.rhythm, s as nat);
            &&& lead[s] is Some <==> m.riff.rhythm[s]
            &&& m.riff.rhythm[s] ==> j < voices::hits_below(
                m.riff.rhythm,
                STEPS_PER_PHRASE as nat,
            ).len() && (lead[s]->0).0 == voices::degree_note(
                m.scale,
                m.key,
                lead_degrees(st, m, b, x)[j as int],
                m.riff.octave as int,
            )
        }),
{
    lemma_hits(m.riff.rhythm, s as nat, STEPS_PER_PHRASE as nat);
    if m.riff.rhythm[s] {
        let hits = voices::hits_below(m.riff.rhythm, STEPS_PER_PHRASE as nat);
        let (ps, y) = voices::pitches(
            voices::contour_for(m.riff, st.motif, m.use_motif),
            hits,
            voices::degrees(m.scale, chord_of(m, b)),
            m.riff.pair as nat,
            st.motif,
            b as int,
            x,
        );
        lemma_hit_notes(
            m.scale,
            m.key,
            ps,
            m.riff.octave as int,
            m.riff.fx,
            m.riff.slide,
            y,
            hits.len(),
            strikes_before(m.riff.rhythm, s as nat) as int,
        );
    }
}

/// A note of a degree is one of the scale, but where it is brought back into
/// range.
pub proof fn lemma_degree_note(scale: Seq<u8>, key: u8, d: int, octave: int)
    requires
        is_scale(scale),
    ensures
        ({
            let n = voices::degree_note(scale, key, d, octave);
            &&& 24 <= n <= 119
            &&& 24 < n < 119 ==> in_scale(scale, key, n as int)
            &&& 24 <= tone(scale, key, d) + 12 * octave <= 119 ==> n == tone(scale, key, d) + 12
                * octave
            &&& 24 < n < 119 ==> n == tone(scale, key, d) + 12 * octave
        }),
{
    lemma_tone_in_scale(scale, key, d);
    let v = tone(scale, key, d);
    let i = choose|i: int| 0 <= i < scale.len() && (v - key) % 12 == #[trigger] scale[i];
    assert((v + 12 * octave - key) % 12 == scale[i]);
    assert((octave + d / scale.len() as int + 1) * 12 == 12 * octave + 12 * (d
        / scale.len() as int) + 12);
}

/// The lead strikes where its rhythm does and nowhere else, on its own
/// instrument, and plays notes of the scale, but where a note is brought back
/// into the range of the channel.
pub proof fn law_lead_follows_rhythm_and_scale(st: StyleView, m: Recipe, b: nat, x: u64, s: int)
    requires
        0 <= s < STEPS_PER_PHRASE,
        is_scale(m.scale),
    ensures
        ({
            let c = compose::bar_grid(st, m, b, x).0[s][0];
            &&& c.note is Some <==> m.riff.rhythm[s]
            &&& c.note matches Some(n) ==> {
                &&& c.instr == m.riff.lead_instr
                &&& 24 <= n <= 119
                &&& 24 < n < 119 ==> in_scale(m.scale, m.key, n as int)
            }
        }),
{
    lemma_bar(st, m, b, x, s);
    lemma_lead(st, m, b, x, s);
    if m.riff.rhythm[s] {
        let j = strikes_before(m.riff.rhythm, s as nat) as int;
        lemma_degree_note(
            m.scale,
            m.key,
            lead_degrees(st, m, b, x)[j],
            m.riff.octave as int,
        );
    }
}

/// The scale degrees of a chord of the scale: every other one.
pub proof fn lemma_chord_degrees(scale: Seq<u8>, sym: ChordSym)
    requires
        is_scale(scale),
        sym.accidental == 0,
    ensures
        ({
            let i = chord_step(scale, sym);
            let d = voices::degrees(scale, voices::triad(scale, sym));
            &&& d.root == i
            &&& i + 2 < 2 * scale.len() ==> d.third == i + 2
            &&& i + 4 < 2 * scale.len() ==> d.fifth == i + 4
        }),
{
    let n = scale.len() as int;
    let i = chord_step(scale, sym);
    let t = voices::triad(scale, sym);
    lemma_step_degree(scale, 0, i);
    if i + 2 < n {
        lemma_split(n, 0, i + 2);
        assert(n * 0 == 0);
        lemma_step_degree(scale, 0, i + 2);
    } else if i + 2 < 2 * n {
        lemma_split(n, 1, i + 2 - n);
        assert(n * 1 == n);
        lemma_step_degree(scale, 1, i + 2 - n);
    }
    if i + 4 < n {
        lemma_split(n, 0, i + 4);
        assert(n * 0 == 0);
        lemma_step_degree(scale, 0, i + 4);
    } else if i + 4 < 2 * n {
        lemma_split(n, 1, i + 4 - n);
        assert(n * 1 == n);
        lemma_step_degree(scale, 1, i + 4 - n);
    }
}

/// The note of a scale step so many degrees above a chord's root, in a riff's
/// octave.
pub open spec fn scale_note(scale: Seq<u8>, key: u8, octave: int, d: int) -> int {
    12 * (octave + 1) + key + 12 * (d / scale.len() as int) + scale[d % (scale.len() as int)]
}

/// What the lead's contours promise: `root` stays on the chord's root, `chord`
/// goes through its root, third and fifth, one further with each bar, and the
/// style's motif is played in scale degrees above the root.
pub proof fn law_contours_go_by_the_chord(st: StyleView, m: Recipe, b: nat, x: u64, s: int)
    requires
        0 <= s < STEPS_PER_PHRASE,
        is_scale(m.scale),
        m.scale.len() >= 5,
        m.prog.len() > 0,
        m.prog[(b % m.prog.len()) as int].accidental == 0,
        m.riff.rhythm[s],
    ensures
        ({
            let n = compose::bar_grid(st, m, b, x).0[s][0].note->0 as int;
            let i = chord_step(m.scale, m.prog[(b % m.prog.len()) as int]);
            let j = strikes_before(m.riff.rhythm, s as nat) as int;
            let motif = m.use_motif && st.motif.len() > 0;
            24 < n < 119 ==> {
                &&& !motif && m.riff.contour == "root"@ ==> n == scale_note(
                    m.scale,
                    m.key,
                    m.riff.octave as int,
                    i,
                )
                &&& !motif && m.riff.contour == "chord"@ ==> n == scale_note(
                    m.scale,
                    m.key,
                    m.riff.octave as int,
                    i + 2 * ((j + b) % 3),
                )
                &&& motif ==> n == scale_note(
                    m.scale,
                    m.key,
                    m.riff.octave as int,
                    i + st.motif[j % (st.motif.len() as int)],
                )
            }
        }),
{
    reveal_strlit("pedal");
    reveal_strlit("pedal_jumps");
    reveal_strlit("pedal_then_run");
    reveal_strlit("walk");
    reveal_strlit("run");
    reveal_strlit("chord");
    reveal_strlit("melody");
    reveal_strlit("motif");
    reveal_strlit("root");
    assert("chord"@[0] == 'c' && "root"@[0] == 'r' && "root"@[1] == 'o' && "run"@[1] == 'u');
    assert("pedal"@[0] == 'p' && "pedal_jumps"@[0] == 'p' && "pedal_then_run"@[0] == 'p');
    assert("walk"@[0] == 'w' && "melody"@[0] == 'm' && "motif"@[0] == 'm' && "run"@[0] == 'r');
    lemma_bar(st, m, b, x, s);
    lemma_lead(st, m, b, x, s);
    let sym = m.prog[(b % m.prog.len()) as int];
    let d = voices::degrees(m.scale, chord_of(m, b));
    lemma_chord_degrees(m.scale, sym);
    let j = strikes_before(m.riff.rhythm, s as nat) as int;
    let p = lead_degrees(st, m, b, x)[j];
    lemma_degree_note(m.scale, m.key, p, m.riff.octave as int);
    assert(tone(m.scale, m.key, p) + 12 * m.riff.octave == scale_note(
        m.scale,
        m.key,
        m.riff.octave as int,
        p,
    ));
}

// ---------------------------------------------------------------- bass

/// The bass stays on the chord's root, in the second octave: on every other
/// step, on every step with the octave between, at a gallop, twice a bar, or
/// where the lead strikes. A walk leaves it for the fifth and the octave, and
/// ends a semitone below it.
pub proof fn law_bass_stays_on_the_root(st: StyleView, m: Recipe, b: nat, x: u64, s: int)
    requires
        0 <= s < STEPS_PER_PHRASE,
        is_scale(m.scale),
        m.key < 12,
        m.prog.len() > 0,
        m.prog[(b % m.prog.len()) as int].accidental == 0,
    ensures
        ({
            let c = compose::bar_grid(st, m, b, x).0[s][2];
            let lead = compose::bar_grid(st, m, b, x).0[s][0].note;
            let i = chord_step(m.scale, m.prog[(b % m.prog.len()) as int]);
            let root = (36 + m.key + m.scale[i]) as u8;
            let style = m.riff.bass;
            &&& c.note is Some ==> c.instr == m.riff.bass_instr && c.vol == 0
            &&& style == "roots"@ ==> c.note == (if s % 2 == 0 {
                Some(root)
            } else {
                None
            })
            &&& style == "octaves"@ ==> c.note == Some(
                if s % 2 == 0 {
                    root
                } else {
                    (root + 12) as u8
                },
            )
            &&& style == "gallop"@ ==> c.note == (if s % 4 == 1 {
                None
            } else {
                Some(root)
            })
            &&& style == "half"@ ==> c.note == (if s == 0 || s == 8 {
                Some(root)
            } else {
                None
            })
            &&& style == "follow"@ ==> c.note == (if lead is Some {
                Some(root)
            } else {
                None
            })
            &&& style == "walk"@ ==> {
                &&& s % 2 == 1 ==> c.note is None
                &&& s == 0 || s == 2 || s == 6 || s == 10 ==> c.note == Some(root)
                &&& s == 8 ==> c.note == Some((root + 12) as u8)
                &&& s == 14 ==> c.note == Some((root - 1) as u8)
                &&& s == 4 || s == 12 ==> c.note is Some && c.note->0 >= root && (c.note->0 - m.key)
                    % 12 == m.scale[(i + 4) % (m.scale.len() as int)]
            }
        }),
{
    reveal_strlit("octaves");
    reveal_strlit("gallop");
    reveal_strlit("roots");
    reveal_strlit("half");
    reveal_strlit("follow");
    reveal_strlit("walk");
    assert("octaves"@[0] == 'o' && "gallop"@[0] == 'g' && "roots"@[0] == 'r' && "half"@[0] == 'h');
    assert("follow"@[0] == 'f' && "walk"@[0] == 'w');
    lemma_bar(st, m, b, x, s);
    let i = chord_step(m.scale, m.prog[(b % m.prog.len()) as int]);
    let n = m.scale.len() as int;
    assert(0 <= (i + 4) % n < n) by (nonlinear_arith)
        requires
            n > 0,
    ;
    assert(m.scale[(i + 4) % n] < 12);
    assert(m.scale[i] < 12);
    let t = chord_of(m, b);
    let root = 36 + m.key + m.scale[i];
    assert(voices::wrap8(m.key + 36 + t.0) == root);
    assert(voices::wrap8(root + 12) == root + 12);
    let up = if i + 4 >= n {
        12int
    } else {
        0
    };
    assert(root + t.2 == 36 + m.key + m.scale[(i + 4) % n] + up);
    assert(voices::wrap8(root + t.2) == root + t.2);
    if i + 4 < n {
        lemma_split(n, 0, i + 4);
        assert(n * 0 == 0);
        assert(m.scale[i] < m.scale[i + 4]);
    }
}

// ---------------------------------------------------------------- drums and volumes

/// The drums strike as their pattern is written: `h`, `o` and `c` are the
/// style's hat, open hat and crash on noise. A crash opens a section that is
/// not the first, and a bar that rings out.
pub proof fn law_drums_follow_their_pattern(st: StyleView, m: Recipe, b: nat, x: u64, s: int)
    requires
        0 <= s < STEPS_PER_PHRASE,
    ensures
        ({
            let c = compose::bar_grid(st, m, b, x).0[s][3];
            let crash = s == 0 && ((b == 0 && m.later) || (m.sec.crash_end && b + 1 == m.bars));
            let token = m.drums.noi[s];
            &&& crash ==> c.note == Some(st.crash.0) && c.instr == st.crash.1
            &&& !crash && token == 'h' ==> c.note == Some(st.hat.0) && c.instr == st.hat.1
            &&& !crash && token == 'o' ==> c.note == Some(st.open_hat.0) && c.instr
                == st.open_hat.1
            &&& !crash && token == 'c' ==> c.note == Some(st.crash.0) && c.instr == st.crash.1
            &&& !crash && token != 'h' && token != 'o' && token != 'c' ==> c.note is None
        }),
{
    lemma_bar(st, m, b, x, s);
}

/// Whether a note plays the sample of a drum token: the first of the style's
/// bank with that token, counted from middle C. A style without a bank has
/// kick, snare and tom.
pub open spec fn is_token_note(st: StyleView, token: char, n: u8) -> bool {
    &&& st.samples.len() == 0 ==> (token == 'k' && n == 60) || (token == 's' && n == 61) || (token
        == 't' && n == 62)
    &&& st.samples.len() > 0 ==> {
        let i = n - 60;
        &&& 0 <= i < st.samples.len()
        &&& st.samples[i].token == Some(token)
        &&& forall|j: int| 0 <= j < i ==> (#[trigger] st.samples[j]).token != Some(token)
    }
}

/// Whether no sample has a drum token.
pub open spec fn is_unknown(st: StyleView, token: char) -> bool {
    &&& st.samples.len() == 0 ==> token != 'k' && token != 's' && token != 't'
    &&& forall|j: int| 0 <= j < st.samples.len() ==> (#[trigger] st.samples[j]).token != Some(token)
}

proof fn lemma_token_slot(v: Seq<style::StyleSampleView>, token: char, i: nat)
    requires
        i <= v.len(),
    ensures
        match style::token_slot(v, token, i) {
            Some(k) => i <= k < v.len() && v[k as int].token == Some(token) && forall|j: int|
                i <= j < k ==> (#[trigger] v[j]).token != Some(token),
            None => forall|j: int| i <= j < v.len() ==> (#[trigger] v[j]).token != Some(token),
        },
    decreases v.len() - i,
{
    if i < v.len() && v[i as int].token != Some(token) {
        lemma_token_slot(v, token, i + 1);
    }
}

/// Samples strike as their pattern is written. The last bar of a section of
/// several ends in a fill: snares in its second half, one on the last step.
pub proof fn law_samples_follow_their_pattern(st: StyleView, m: Recipe, b: nat, x: u64, s: int)
    requires
        0 <= s < STEPS_PER_PHRASE,
        st.samples.len() <= 196,
    ensures
        ({
            let c = compose::bar_grid(st, m, b, x).0[s][4];
            let fill = b + 1 == m.bars && m.bars > 1;
            let token = m.drums.dpcm[s];
            let written = (c.note is Some ==> token != '.' && is_token_note(st, token, c.note->0))
                && (c.note is None ==> token == '.' || is_unknown(st, token));
            let snare = c.note is Some && (is_token_note(st, 's', c.note->0) || (is_unknown(st, 's')
                && c.note->0 == 61));
            &&& !fill || s < 8 ==> written
            &&& fill && s == 15 ==> snare
            &&& fill && 8 <= s < 15 ==> snare || written
        }),
{
    lemma_bar(st, m, b, x, s);
    lemma_token_slot(st.samples, m.drums.dpcm[s], 0);
    lemma_token_slot(st.samples, 's', 0);
}

proof fn lemma_last_strike(g: Seq<Seq<Cell>>, c: int, k: nat, s: int)
    requires
        0 <= s < k,
        g[s][c].note is Some,
        forall|q: int| s < q < k ==> (#[trigger] g[q])[c].note is None,
    ensures
        compose::last_struck(g, c, k) == Some(s as nat),
    decreases k,
{
    if s < k - 1 {
        assert(g[k - 1][c].note is None);
        lemma_last_strike(g, c, (k - 1) as nat, s);
    }
}

/// A bar that rings out repeats the last note of both pulses: the retrigger
/// effect stands where each of them strikes last.
pub proof fn law_endings_ring_out(st: StyleView, m: Recipe, b: nat, x: u64, c: int, s: int)
    requires
        0 <= s < STEPS_PER_PHRASE,
        c == 0 || c == 1,
        m.sec.crash_end,
        b + 1 == m.bars,
        compose::bar_grid(st, m, b, x).0[s][c].note is Some,
        forall|q: int|
            s < q < STEPS_PER_PHRASE ==> (#[trigger] compose::bar_grid(st, m, b, x).0[q])[c].note
                is None,
    ensures
        compose::bar_grid(st, m, b, x).0[s][c].fx == Some((0x52u8, 3u8)),
{
    let t = chord_of(m, b);
    let lead = lead_of(st, m, b, x);
    let y = after_lead(st, m, b, x);
    let g = compose::bar_rows(
        m.riff,
        m.sec,
        b as int,
        m.bars as int,
        lead,
        voices::harmony_line(m.scale, m.key, m.riff, t, lead),
        voices::bass_line(m.key, m.riff, t, lead),
        voices::noise_line(st, m.drums, b == 0 && m.later),
        voices::sample_line(st, m.drums, m.bars > 1, y).0,
    );
    let r = compose::ringing(g, 0);
    let out = compose::bar_grid(st, m, b, x).0;
    assert forall|q: int| 0 <= q < STEPS_PER_PHRASE implies (#[trigger] g[q])[c].note
        == out[q][c].note && r[q][c].note == out[q][c].note by {
        assert(g[q].len() == CHANNELS);
        lemma_ringing(g, 0, q, c);
        lemma_ringing(r, 1, q, c);
    }
    assert forall|q: int| s < q < STEPS_PER_PHRASE implies (#[trigger] g[q])[c].note is None by {
        assert(out[q][c].note is None);
    }
    assert forall|q: int| s < q < STEPS_PER_PHRASE implies (#[trigger] r[q])[c].note is None by {
        assert(g[q][c].note is None);
    }
    assert(g[s][c].note is Some);
    assert(g[s].len() == CHANNELS);
    if c == 0 {
        lemma_last_strike(g, 0, STEPS_PER_PHRASE as nat, s);
        lemma_ringing(g, 0, s, 0);
        lemma_ringing(r, 1, s, 0);
        lemma_last_struck(r, 1, STEPS_PER_PHRASE as nat);
    } else {
        lemma_last_strike(r, 1, STEPS_PER_PHRASE as nat, s);
        lemma_ringing(g, 0, s, 1);
    }
}

/// A volume is the riff's accent, on the beat or off it, and full where there
/// is none. A section that swells begins at 6, ends at 15, and never falls.
pub proof fn law_volumes_accent_and_swell(
    st: StyleView,
    m: Recipe,
    b: nat,
    later: nat,
    x: u64,
    y: u64,
    s: int,
)
    requires
        0 <= s < STEPS_PER_PHRASE,
        b <= later < m.bars,
        compose::bar_grid(st, m, b, x).0[s][0].note is Some,
        compose::bar_grid(st, m, later, y).0[s][0].note is Some,
    ensures
        ({
            let v = compose::bar_grid(st, m, b, x).0[s][0].vol;
            let w = compose::bar_grid(st, m, later, y).0[s][0].vol;
            let swells = m.sec.swell && m.bars > 1;
            &&& !swells && m.riff.accent is None ==> v == 0
            &&& !swells && m.riff.accent is Some ==> v == (if s % 4 == 0 {
                (m.riff.accent->0).0
            } else {
                (m.riff.accent->0).1
            })
            &&& swells && m.riff.accent is None ==> {
                &&& 6 <= v <= w <= 15
                &&& b == 0 ==> v == 6
                &&& later == m.bars - 1 ==> w == 15
            }
        }),
{
    lemma_bar(st, m, b, x, s);
    lemma_bar(st, m, later, y, s);
    if m.sec.swell && m.bars > 1 && m.riff.accent is None {
        let k = m.bars - 1;
        let p = 9 * b as int;
        let q = 9 * later as int;
        assert(0 <= p / k <= q / k <= 9) by (nonlinear_arith)
            requires
                0 <= p <= q <= 9 * k,
                k > 0,
        ;
        if later == k {
            assert(q / k == 9) by (nonlinear_arith)
                requires
                    q == 9 * k,
                    k > 0,
            ;
        }
        if b == 0 {
            assert(p / k == 0) by (nonlinear_arith)
                requires
                    p == 0,
                    k > 0,
            ;
        }
    }
}

/// A section that a form moves by semitones is moved just so on its pitched
/// channels, but where a note would leave their range.
pub proof fn law_sections_move_by_semitones(g: Seq<Seq<Cell>>, by: int, s: int, c: int)
    requires
        0 <= s < g.len(),
        0 <= c < 3,
        c < g[s].len(),
    ensures
        ({
            let a = g[s][c];
            let d = compose::moved_bar(g, by)[s][c];
            &&& a.note is None <==> d.note is None
            &&& a.note matches Some(n) ==> (24 <= n + by <= 119 ==> d.note == Some((n + by) as u8))
            &&& d.instr == a.instr && d.vol == a.vol && d.fx == a.fx && d.hold == a.hold
        }),
{
}

} // verus!
