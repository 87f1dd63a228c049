//! How the lead's lines go: up or down by steps, to and fro, or on the root.

use vstd::prelude::*;

use crate::gen;
use crate::song::STEPS_PER_PHRASE;
use crate::style::compose;
use crate::style::compose::Recipe;
use crate::style::musical;
use crate::style::voices;
use crate::style::StyleView;

verus! {

/// Whether a line goes a number of steps at a place.
pub open spec fn moves(d: Seq<int>, j: int, by: int) -> bool {
    d[j] - d[j - 1] == by
}

/// Whether a step of the scale belongs to the chord on another.
pub open spec fn is_chordal(p: int, root: int) -> bool {
    p == root || p == root + 2 || p == root + 4
}

/// A line that goes one way, step by step, and may turn back for a step after
/// every fourth note.
pub open spec fn is_run(d: Seq<int>, first: int, way: int) -> bool {
    &&& d.len() > 0 ==> d[0] == first
    &&& forall|j: int|
        1 <= j < d.len() ==> #[trigger] moves(d, j, way) || (j % 4 == 0 && moves(d, j, -way))
}

/// Where a walk goes at a place: nowhere within its repeats, and to the next
/// step up or down or to a note of the chord after them.
pub open spec fn walks_at(d: Seq<int>, j: int, root: int, pair: int) -> bool {
    if j % pair == 0 {
        moves(d, j, 1) || moves(d, j, -1) || is_chordal(d[j], root)
    } else {
        d[j] == d[j - 1]
    }
}

/// A line that walks up and down from a note of the chord, within three steps
/// below the root and seven above it. In every second bar it ends on the root.
pub open spec fn is_walk(d: Seq<int>, root: int, pair: int, home: bool) -> bool {
    &&& d.len() > 0 ==> is_chordal(d[0], root)
    &&& home && d.len() > 0 ==> d.last() == root
    &&& forall|j: int| 0 <= j < d.len() ==> root - 3 <= #[trigger] d[j] <= root + 7
    &&& forall|j: int|
        1 <= j < d.len() && !(home && j == d.len() - 1) ==> #[trigger] walks_at(d, j, root, pair)
}

/// A line that stays on the root, but for its last note (`pedal`), every
/// fourth (`pedal_jumps`) or its last four (`pedal_then_run`).
pub open spec fn is_pedal(word: Seq<char>, d: Seq<int>, root: int, size: int) -> bool {
    forall|j: int|
        0 <= j < d.len() ==> {
            &&& word == "pedal"@ && j < d.len() - 1 ==> #[trigger] d[j] == root
            &&& word == "pedal_jumps"@ && j % 4 != 3 ==> d[j] == root
            &&& word == "pedal_jumps"@ ==> is_chordal(d[j], root) || is_chordal(d[j] - size, root)
            &&& word == "pedal_then_run"@ && j < d.len() - 4 ==> d[j] == root
        }
}

proof fn lemma_pedal_line(
    c: voices::Contour,
    n: int,
    jab: bool,
    tritone: bool,
    d: voices::Degrees,
    x: u64,
    k: nat,
)
    requires
        c == voices::Contour::Pedal || c == voices::Contour::PedalJumps || c
            == voices::Contour::PedalThenRun,
        k <= n,
    ensures
        ({
            let ps = voices::pedal_line(c, n, jab, tritone, d, x, k).0;
            &&& ps.len() == k
            &&& forall|j: int|
                0 <= j < k ==> {
                    let p = #[trigger] ps[j];
                    let low = p - d.size;
                    &&& c == voices::Contour::Pedal && j < n - 1 ==> p == d.root
                    &&& c == voices::Contour::PedalJumps && j % 4 != 3 ==> p == d.root
                    &&& c == voices::Contour::PedalJumps ==> (p == d.root || p == d.third || p
                        == d.fifth || low == d.root || low == d.third || low == d.fifth)
                    &&& c == voices::Contour::PedalThenRun && j < n - 4 ==> p == d.root
                }
        }),
    decreases k,
{
    if k > 0 {
        lemma_pedal_line(c, n, jab, tritone, d, x, (k - 1) as nat);
    }
}

proof fn lemma_run_line(first: int, dir: int, x: u64, k: nat)
    ensures
        ({
            let r = voices::run_line(first, dir, x, k);
            &&& r.0.len() == k
            &&& is_run(r.0, first, dir)
            &&& k == 0 ==> r.1 == first
            &&& k > 0 ==> r.1 - r.0[k - 1] == dir || (k % 4 == 0 && r.1 - r.0[k - 1] == -dir)
        }),
    decreases k,
{
    if k > 0 {
        lemma_run_line(first, dir, x, (k - 1) as nat);
        let before = voices::run_line(first, dir, x, (k - 1) as nat).0;
        let now = voices::run_line(first, dir, x, k).0;
        assert forall|j: int| 1 <= j < k implies #[trigger] moves(now, j, dir) || (j % 4 == 0
            && moves(now, j, -dir)) by {
            if j < k - 1 {
                assert(moves(before, j, dir) || (j % 4 == 0 && moves(before, j, -dir)));
            }
        }
    }
}

proof fn lemma_walk_line(d: voices::Degrees, m: nat, pair: nat, cur: int, dir: int, x: u64)
    requires
        pair > 0,
        dir == 1 || dir == -1,
        d.third == d.root + 2,
        d.fifth == d.root + 4,
        d.root - 3 <= cur <= d.root + 7,
    ensures
        ({
            let ps = voices::walk_line(d, m, pair, cur, dir, x).0;
            &&& ps.len() == m
            &&& m > 0 ==> ps[0] == cur
            &&& forall|j: int| 0 <= j < m ==> d.root - 3 <= #[trigger] ps[j] <= d.root + 7
            &&& forall|j: int| 1 <= j < m ==> #[trigger] walks_at(ps, j, d.root, pair as int)
        }),
    decreases m,
{
    if m > 0 {
        let q: nat = if pair < m {
            pair
        } else {
            m
        };
        let (next, turn, y) = voices::walk_on(d, cur, dir, x);
        assert(turn == 1 || turn == -1);
        assert(next == cur + 1 || next == cur - 1 || is_chordal(next, d.root));
        assert(d.root - 3 <= next <= d.root + 7);
        lemma_walk_line(d, (m - q) as nat, pair, next, turn, y);
        let rest = voices::walk_line(d, (m - q) as nat, pair, next, turn, y).0;
        let ps = voices::walk_line(d, m, pair, cur, dir, x).0;
        assert(ps == Seq::new(q, |i: int| cur) + rest);
        assert forall|j: int| 1 <= j < m implies #[trigger] walks_at(ps, j, d.root, pair as int) by {
            if j < q {
                assert(j % (pair as int) == j) by (nonlinear_arith)
                    requires
                        0 <= j < pair,
                ;
            } else if j == q {
                assert(j % (pair as int) == 0) by (nonlinear_arith)
                    requires
                        j == pair,
                        pair > 0,
                ;
                assert(ps[j] == next && ps[j - 1] == cur);
            } else {
                assert(walks_at(rest, j - q, d.root, pair as int));
                vstd::arithmetic::div_mod::lemma_mod_sub_multiples_vanish(j, pair as int);
                assert((j - q) % (pair as int) == j % (pair as int));
                assert(ps[j] == rest[j - q] && ps[j - 1] == rest[j - q - 1]);
            }
        }
    }
}

/// A melody stays between three steps below the root and nine above it, and
/// comes home in every second bar.
pub open spec fn is_melody(d: Seq<int>, root: int, home: bool) -> bool {
    &&& forall|j: int| 0 <= j < d.len() ==> root - 3 <= #[trigger] d[j] <= root + 9
    &&& home && d.len() > 0 ==> d.last() == root
}

proof fn lemma_melody_line(
    d: voices::Degrees,
    hits: Seq<int>,
    bar: int,
    first: int,
    x: u64,
    k: nat,
)
    requires
        k <= hits.len(),
    ensures
        ({
            let ps = voices::melody_line(d, hits, bar, first, x, k).0;
            &&& ps.len() == k
            &&& is_melody(ps, d.root, bar % 2 == 1 && k == hits.len())
        }),
    decreases k,
{
    if k > 0 {
        lemma_melody_line(d, hits, bar, first, x, (k - 1) as nat);
    }
}

/// Whether a bar's lead plays these steps of the scale, hit by hit, but where
/// a note is brought back into range.
pub open spec fn plays_line(st: StyleView, m: Recipe, b: nat, x: u64, d: Seq<int>) -> bool {
    forall|s: int|
        0 <= s < STEPS_PER_PHRASE && #[trigger] m.riff.rhythm[s] ==> {
            let n = compose::bar_grid(st, m, b, x).0[s][0].note->0;
            24 < n < 119 ==> n == musical::scale_note(
                m.scale,
                m.key,
                m.riff.octave as int,
                d[musical::strikes_before(m.riff.rhythm, s as nat) as int],
            )
        }
}

/// Whether a line is of the kind that its riff asks for.
pub open spec fn is_of_kind(m: Recipe, b: nat, d: Seq<int>) -> bool {
    let root = musical::chord_step(m.scale, m.prog[(b % m.prog.len()) as int]);
    &&& m.riff.contour == "run"@ ==> is_run(d, root - 2, 1) || is_run(d, root + 7, -1)
    &&& m.riff.contour == "walk"@ ==> is_walk(d, root, m.riff.pair as int, b % 2 == 1)
    &&& m.riff.contour == "melody"@ ==> is_melody(d, root, b % 2 == 1)
    &&& is_pedal(m.riff.contour, d, root, m.scale.len() as int)
}

proof fn lemma_line(st: StyleView, m: Recipe, b: nat, x: u64)
    requires
        musical::is_scale(m.scale),
        m.scale.len() >= 5,
        m.prog.len() > 0,
        m.prog[(b % m.prog.len()) as int].accidental == 0,
        !(m.use_motif && st.motif.len() > 0),
        m.riff.pair > 0,
    ensures
        is_of_kind(m, b, musical::lead_degrees(st, m, b, x)),
{
    reveal_strlit("pedal");
    reveal_strlit("pedal_jumps");
    reveal_strlit("pedal_then_run");
    reveal_strlit("walk");
    reveal_strlit("run");
    reveal_strlit("melody");
    reveal_strlit("chord");
    assert("pedal"@.len() == 5 && "pedal_jumps"@.len() == 11 && "pedal_then_run"@.len() == 14);
    assert("walk"@.len() == 4 && "run"@.len() == 3 && "melody"@.len() == 6);
    assert("chord"@.len() == 5);
    let w = m.riff.contour;
    let c = voices::contour_for(m.riff, st.motif, m.use_motif);
    let hits = voices::hits_below(m.riff.rhythm, STEPS_PER_PHRASE as nat);
    let n = hits.len();
    let d = voices::degrees(m.scale, musical::chord_of(m, b));
    let pair = m.riff.pair as nat;
    let x1 = gen::rng_next(x);
    let x2 = gen::rng_next(x1);
    let sym = m.prog[(b % m.prog.len()) as int];
    musical::lemma_chord_degrees(m.scale, sym);
    let ps = musical::lead_degrees(st, m, b, x);
    if w == "run"@ {
        assert(c == voices::Contour::Run);
        lemma_run_line(d.root - 2, 1, x1, n);
        lemma_run_line(d.root + 7, -1, x1, n);
    } else if w == "walk"@ {
        assert(c == voices::Contour::Walk);
        let dir = if voices::lucky(x2, voices::CHANCE_50) {
            1int
        } else {
            -1
        };
        lemma_walk_line(d, n, pair, d.drawn(x1), dir, x2);
        let line = voices::walk_line(d, n, pair, d.drawn(x1), dir, x2).0;
        assert forall|j: int| 1 <= j < ps.len() && !(b % 2 == 1 && j == ps.len() - 1) implies
            #[trigger] walks_at(ps, j, d.root, pair as int) by {
            assert(walks_at(line, j, d.root, pair as int));
        }
    } else if w == "melody"@ {
        assert(c == voices::Contour::Melody);
        lemma_melody_line(d, hits, b as int, d.drawn(x1), x1, n);
    } else if w == "pedal"@ || w == "pedal_jumps"@ || w == "pedal_then_run"@ {
        lemma_pedal_line(
            c,
            n as int,
            voices::lucky(x1, voices::CHANCE_55),
            voices::lucky(x2, voices::CHANCE_25),
            d,
            x2,
            n,
        );
    }
}

/// The lead's other contours: a `run` climbs from two steps below the root, or
/// comes down from seven above it, step by step; a `walk` goes up and down by
/// steps or to notes of the chord, each note as often as the riff says; the
/// `pedal` kinds stay on the root but for the notes that may leave it; a
/// `melody` keeps near the root and comes home.
pub proof fn law_lines_go_their_way(st: StyleView, m: Recipe, b: nat, x: u64)
    requires
        musical::is_scale(m.scale),
        m.scale.len() >= 5,
        m.prog.len() > 0,
        m.prog[(b % m.prog.len()) as int].accidental == 0,
        !(m.use_motif && st.motif.len() > 0),
        m.riff.pair > 0,
    ensures
        exists|d: Seq<int>| #[trigger] is_of_kind(m, b, d) && plays_line(st, m, b, x, d),
{
    let d = musical::lead_degrees(st, m, b, x);
    lemma_line(st, m, b, x);
    assert forall|s: int| 0 <= s < STEPS_PER_PHRASE && #[trigger] m.riff.rhythm[s] implies ({
        let n = compose::bar_grid(st, m, b, x).0[s][0].note->0;
        24 < n < 119 ==> n == musical::scale_note(
            m.scale,
            m.key,
            m.riff.octave as int,
            d[musical::strikes_before(m.riff.rhythm, s as nat) as int],
        )
    }) by {
        musical::lemma_bar(st, m, b, x, s);
        musical::lemma_lead(st, m, b, x, s);
        let p = d[musical::strikes_before(m.riff.rhythm, s as nat) as int];
        musical::lemma_degree_note(m.scale, m.key, p, m.riff.octave as int);
        assert(musical::tone(m.scale, m.key, p) + 12 * m.riff.octave == musical::scale_note(
            m.scale,
            m.key,
            m.riff.octave as int,
            p,
        ));
    }
    assert(plays_line(st, m, b, x, d));
}

proof fn lemma_hit_effects(
    scale: Seq<u8>,
    key: u8,
    ps: Seq<int>,
    octave: int,
    fx: Option<(u8, u8)>,
    slide: i32,
    x: u64,
    k: nat,
)
    ensures
        ({
            let ns = voices::hit_notes(scale, key, ps, octave, fx, slide, x, k).0;
            &&& ns.len() == k
            &&& forall|j: int|
                0 <= j < k ==> {
                    let e = (#[trigger] ns[j]).1;
                    &&& fx is Some || slide <= 0 || j == 0 ==> e == fx
                    &&& fx is None ==> e is None || e == Some((0x53u8, 4u8))
                }
        }),
    decreases k,
{
    if k > 0 {
        lemma_hit_effects(scale, key, ps, octave, fx, slide, x, (k - 1) as nat);
    }
}

/// The lead's notes carry the effect of their riff. Where it has none, notes
/// after the first may slide in, if the riff slides at all.
pub proof fn law_leads_carry_their_effect(st: StyleView, m: Recipe, b: nat, x: u64, s: int)
    requires
        0 <= s < STEPS_PER_PHRASE,
        m.riff.rhythm[s],
    ensures
        ({
            let e = (musical::lead_of(st, m, b, x)[s]->0).1;
            let first = musical::strikes_before(m.riff.rhythm, s as nat) == 0;
            &&& m.riff.fx is Some || m.riff.slide <= 0 || first ==> e == m.riff.fx
            &&& m.riff.fx is None ==> e is None || e == Some((0x53u8, 4u8))
        }),
{
    musical::lemma_lead(st, m, b, x, s);
    musical::lemma_hits(m.riff.rhythm, s as nat, STEPS_PER_PHRASE as nat);
    let hits = voices::hits_below(m.riff.rhythm, STEPS_PER_PHRASE as nat);
    let (ps, y) = voices::pitches(
        voices::contour_for(m.riff, st.motif, m.use_motif),
        hits,
        voices::degrees(m.scale, musical::chord_of(m, b)),
        m.riff.pair as nat,
        st.motif,
        b as int,
        x,
    );
    lemma_hit_effects(
        m.scale,
        m.key,
        ps,
        m.riff.octave as int,
        m.riff.fx,
        m.riff.slide,
        y,
        hits.len(),
    );
}

} // verus!
