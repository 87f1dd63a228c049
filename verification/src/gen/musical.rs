//! What the generators play: chord tones in the order that an arpeggio names,
//! bass lines and progressions on their chords, melodies in their mode, and
//! drums as their masks are written.

use vstd::arithmetic::div_mod::{
    lemma_div_multiples_vanish, lemma_fundamental_div_mod, lemma_fundamental_div_mod_converse,
    lemma_mod_multiples_basic,
};
use vstd::prelude::*;

use crate::gen;
use crate::gen::automata;
use crate::gen::chord;
use crate::gen::chord::ChordView;
use crate::gen::patterns;
use crate::gen::patterns::{ArpPattern, BassStyle, DrumView};
use crate::gen::{Channel, Mode};
use crate::song::{Cell, SongView, CHANNELS, STEPS_PER_PHRASE};

verus! {

// ---------------------------------------------------------------- modes

/// A step of the major scale begun on another of its steps.
pub open spec fn turned(by: int, i: int) -> int {
    let major = gen::mode_steps(Mode::Major);
    (major[(i + by) % 7] - major[by]) % 12
}

/// Whether a mode is the major scale begun on one of its steps.
pub open spec fn is_rotation(steps: Seq<u8>, by: int) -> bool {
    &&& steps.len() == 7
    &&& steps[0] == turned(by, 0) && steps[1] == turned(by, 1) && steps[2] == turned(by, 2)
    &&& steps[3] == turned(by, 3) && steps[4] == turned(by, 4) && steps[5] == turned(by, 5)
    &&& steps[6] == turned(by, 6)
}

/// The church modes are the major scale begun on its other steps, the harmonic
/// minor raises the seventh of the minor, and the pentatonic scales and the
/// blues leave steps out. The major scale has half steps under its fourth and
/// its octave.
#[verifier::rlimit(60)]
#[verifier::spinoff_prover]
pub proof fn law_modes_are_related()
    ensures
        gen::mode_steps(Mode::Major) == seq![0u8, 2, 4, 5, 7, 9, 11],
        is_rotation(gen::mode_steps(Mode::Dorian), 1),
        is_rotation(gen::mode_steps(Mode::Phrygian), 2),
        is_rotation(gen::mode_steps(Mode::Lydian), 3),
        is_rotation(gen::mode_steps(Mode::Mixolydian), 4),
        is_rotation(gen::mode_steps(Mode::Minor), 5),
        is_rotation(gen::mode_steps(Mode::Locrian), 6),
        gen::mode_steps(Mode::HarmonicMinor) == gen::mode_steps(Mode::Minor).update(6, 11),
        gen::mode_steps(Mode::PentMajor) == gen::mode_steps(Mode::Major).remove(3).remove(5),
        gen::mode_steps(Mode::PentMinor) == gen::mode_steps(Mode::Minor).remove(1).remove(4),
        gen::mode_steps(Mode::Blues) == gen::mode_steps(Mode::PentMinor).insert(3, 6),
{
    let major = gen::mode_steps(Mode::Major);
    assert(major[0] == 0 && major[1] == 2 && major[2] == 4 && major[3] == 5 && major[4] == 7);
    assert(major[5] == 9 && major[6] == 11);
    assert(gen::mode_steps(Mode::HarmonicMinor) =~= gen::mode_steps(Mode::Minor).update(6, 11));
    assert(gen::mode_steps(Mode::PentMajor) =~= major.remove(3).remove(5));
    assert(gen::mode_steps(Mode::PentMinor) =~= gen::mode_steps(Mode::Minor).remove(1).remove(4));
    assert(gen::mode_steps(Mode::Blues) =~= gen::mode_steps(Mode::PentMinor).insert(3, 6));
}

// ---------------------------------------------------------------- arpeggios

/// How many octaves an arpeggio spans: one at least.
pub open spec fn span(octaves: i32) -> int {
    if octaves < 1 {
        1
    } else {
        octaves as int
    }
}

/// A tone of a chord in an octave. Notes beyond the range of MIDI are brought
/// back into it.
pub open spec fn chord_note(c: ChordView, o: int, i: int) -> int {
    in_midi(12 * (o + 1) + c.root + c.intervals[i])
}

/// Whether a note is a tone of a chord in one of so many octaves from the
/// fourth on.
pub open spec fn is_chord_tone(c: ChordView, octaves: i32, n: u8) -> bool {
    exists|o: int, i: int|
        4 <= o < 4 + span(octaves) && 0 <= i < c.intervals.len() && n == #[trigger] chord_note(
            c,
            o,
            i,
        )
}

pub open spec fn in_midi(n: int) -> int {
    if n < 0 {
        0
    } else if n > 127 {
        127
    } else {
        n
    }
}

proof fn lemma_pool(c: ChordView, octaves: i32, k: nat)
    requires
        k <= 128,
    ensures
        ({
            let p = patterns::pool_below(c, span(octaves), k);
            &&& forall|i: int| 0 <= i < p.len() ==> #[trigger] p[i] < k
            &&& forall|i: int, j: int| 0 <= i < j < p.len() ==> #[trigger] p[i] < #[trigger] p[j]
            &&& forall|i: int| 0 <= i < p.len() ==> is_chord_tone(c, octaves, #[trigger] p[i])
            &&& forall|n: u8| n < k && #[trigger] is_chord_tone(c, octaves, n) ==> p.contains(n)
        }),
    decreases k,
{
    let oct = span(octaves);
    if k > 0 {
        lemma_pool(c, octaves, (k - 1) as nat);
        let before = patterns::pool_below(c, oct, (k - 1) as nat);
        let p = patterns::pool_below(c, oct, k);
        let m = (k - 1) as u8;
        lemma_in_pool(c, octaves, m);
        assert forall|n: u8| n < k && #[trigger] is_chord_tone(c, octaves, n) implies p.contains(
            n,
        ) by {
            if n == m {
                assert(p[p.len() - 1] == m);
            } else {
                let i = choose|i: int| 0 <= i < before.len() && before[i] == n;
                assert(p[i] == n);
            }
        }
        assert forall|i: int| 0 <= i < p.len() implies is_chord_tone(
            c,
            octaves,
            #[trigger] p[i],
        ) by {
            if i < before.len() {
                assert(p[i] == before[i]);
            } else {
                assert(p[i] == m);
            }
        }
    }
}

proof fn lemma_in_pool(c: ChordView, octaves: i32, n: u8)
    ensures
        patterns::in_pool(c, span(octaves), n) == is_chord_tone(c, octaves, n),
{
    let oct = span(octaves);
    if patterns::in_pool(c, oct, n) {
        let (o, i) = choose|o: int, i: int|
            4 <= o < 4 + oct && 0 <= i < c.intervals.len() && #[trigger] chord::tone(
                c.root,
                c.intervals[i],
                o,
            ) == n;
        assert(n == chord_note(c, o, i));
    }
    if is_chord_tone(c, octaves, n) {
        let (o, i) = choose|o: int, i: int|
            4 <= o < 4 + oct && 0 <= i < c.intervals.len() && n == #[trigger] chord_note(c, o, i);
        assert(chord::tone(c.root, c.intervals[i], o) == n);
    }
}

/// The pool is the chord's tones, each once and in ascending order.
proof fn lemma_arp_pool(c: ChordView, octaves: i32)
    ensures
        ({
            let p = patterns::arp_pool(c, octaves);
            &&& forall|i: int, j: int| 0 <= i < j < p.len() ==> #[trigger] p[i] < #[trigger] p[j]
            &&& forall|i: int| 0 <= i < p.len() ==> is_chord_tone(c, octaves, #[trigger] p[i])
            &&& forall|n: u8| n < 128 && #[trigger] is_chord_tone(c, octaves, n) ==> p.contains(n)
        }),
{
    lemma_pool(c, octaves, 128);
    assert(patterns::arp_pool(c, octaves) == patterns::pool_below(c, span(octaves), 128));
}

proof fn lemma_arp_steps(
    k: nat,
    run: Seq<u8>,
    random: bool,
    len: nat,
    rate: nat,
    instr: u8,
    seed: u64,
    s: int,
)
    requires
        0 <= s < k,
        0 < run.len() <= u32::MAX,
    ensures
        ({
            let col = patterns::arp_steps(k, run, random, len, rate, instr, seed).0;
            &&& col.len() == k
            &&& s < len && s % (rate as int) == 0 ==> {
                &&& col[s].note is Some && run.contains(col[s].note->0)
                &&& col[s].instr == instr && col[s].vol == 15 && !col[s].hold
                &&& !random ==> col[s].note == Some(run[(s / rate as int) % (run.len() as int)])
            }
            &&& !(s < len && s % (rate as int) == 0) ==> col[s].note is None
        }),
    decreases k,
{
    reveal_with_fuel(patterns::arp_steps, 2);
    if s < k - 1 {
        lemma_arp_steps((k - 1) as nat, run, random, len, rate, instr, seed, s);
    } else {
        if k > 1 {
            lemma_arp_steps((k - 1) as nat, run, random, len, rate, instr, seed, 0);
        }
        let x = patterns::arp_steps((k - 1) as nat, run, random, len, rate, instr, seed).1;
        let r = gen::rng_range(gen::rng_next(x), 0, run.len() as u32) as int;
        assert(0 <= r < run.len());
        assert(run.contains(run[r]));
        let q = s / rate as int;
        let n = run.len() as int;
        assert(0 <= q % n < n) by (nonlinear_arith)
            requires
                n > 0,
        ;
        assert(run.contains(run[q % n]));
    }
}

/// The steps that an arpeggio fills: one to sixteen.
pub open spec fn filled(len: nat) -> nat {
    if len < 1 {
        1
    } else if len > STEPS_PER_PHRASE {
        STEPS_PER_PHRASE as nat
    } else {
        len
    }
}

/// An arpeggio strikes every so many steps as far as it is long, and each of
/// its notes is a tone of the chord.
pub proof fn law_arpeggios_play_chord_tones(
    c: ChordView,
    p: ArpPattern,
    len: nat,
    rate: nat,
    octaves: i32,
    instr: u8,
    seed: u64,
    s: int,
)
    requires
        c.intervals.len() > 0,
        0 <= s < STEPS_PER_PHRASE,
        rate >= 1,
    ensures
        ({
            let x = patterns::arp_column(c, p, len, rate, octaves, instr, seed)[s];
            &&& x.note is Some <==> s < filled(len) && s % (rate as int) == 0
            &&& x.note matches Some(n) ==> is_chord_tone(c, octaves, n) && x.instr == instr
        }),
{
    let pool = patterns::arp_pool(c, octaves);
    let run = patterns::arp_run(pool, p);
    lemma_arp_pool(c, octaves);
    lemma_some_tone(c, octaves);
    lemma_run_contains(pool, p);
    lemma_pool_len(c, octaves);
    lemma_arp_steps(
        STEPS_PER_PHRASE as nat,
        run,
        p == ArpPattern::Random,
        patterns::spc_of(len),
        rate,
        instr,
        seed,
        s,
    );
    let x = patterns::arp_column(c, p, len, rate, octaves, instr, seed)[s];
    if let Some(n) = x.note {
        assert(run.contains(n));
        assert(pool.contains(n));
        let k = choose|k: int| 0 <= k < pool.len() && pool[k] == n;
        assert(is_chord_tone(c, octaves, pool[k]));
    }
}

proof fn lemma_some_tone(c: ChordView, octaves: i32)
    requires
        c.intervals.len() > 0,
    ensures
        patterns::arp_pool(c, octaves).len() > 0,
{
    lemma_arp_pool(c, octaves);
    let n = chord_note(c, 4, 0) as u8;
    assert(n == chord_note(c, 4, 0));
    assert(is_chord_tone(c, octaves, n));
    assert(patterns::arp_pool(c, octaves).contains(n));
}

proof fn lemma_run_contains(pool: Seq<u8>, p: ArpPattern)
    ensures
        forall|n: u8| #[trigger] patterns::arp_run(pool, p).contains(n) ==> pool.contains(n),
{
    let run = patterns::arp_run(pool, p);
    assert forall|n: u8| #[trigger] run.contains(n) implies pool.contains(n) by {
        let i = choose|i: int| 0 <= i < run.len() && run[i] == n;
        match p {
            ArpPattern::Down => {
                assert(pool[pool.len() - 1 - i] == n);
            },
            ArpPattern::UpDown => {
                if i < pool.len() {
                    assert(pool[i] == n);
                } else {
                    let back = pool.subrange(1, pool.len() - 1).reverse();
                    assert(back[i - pool.len()] == n);
                    assert(pool[2 * pool.len() - 2 - i] == n);
                }
            },
            _ => {
                assert(pool[i] == n);
            },
        }
    }
}

proof fn lemma_pool_len(c: ChordView, octaves: i32)
    ensures
        patterns::arp_pool(c, octaves).len() <= 128,
{
    let oct = span(octaves);
    lemma_pool_bound(c, oct, 128);
}

proof fn lemma_pool_bound(c: ChordView, oct: int, k: nat)
    ensures
        patterns::pool_below(c, oct, k).len() <= k,
    decreases k,
{
    if k > 0 {
        lemma_pool_bound(c, oct, (k - 1) as nat);
    }
}

/// The note of an arpeggio's `i`-th strike.
pub open spec fn arp_strike(
    c: ChordView,
    p: ArpPattern,
    len: nat,
    rate: nat,
    octaves: i32,
    instr: u8,
    seed: u64,
    i: int,
) -> u8 {
    patterns::arp_column(c, p, len, rate, octaves, instr, seed)[i * rate].note->0
}

proof fn lemma_strike(
    c: ChordView,
    p: ArpPattern,
    len: nat,
    rate: nat,
    octaves: i32,
    instr: u8,
    seed: u64,
    i: int,
)
    requires
        c.intervals.len() > 0,
        rate >= 1,
        0 <= i,
        i * rate < filled(len),
        p != ArpPattern::Random,
    ensures
        ({
            let run = patterns::arp_run(patterns::arp_pool(c, octaves), p);
            &&& run.len() > 0
            &&& arp_strike(c, p, len, rate, octaves, instr, seed, i) == run[i % (
            run.len() as int)]
        }),
{
    let pool = patterns::arp_pool(c, octaves);
    let run = patterns::arp_run(pool, p);
    lemma_some_tone(c, octaves);
    lemma_pool_len(c, octaves);
    assert(0 <= i * rate) by (nonlinear_arith)
        requires
            0 <= i,
            rate >= 1,
    ;
    lemma_arp_steps(
        STEPS_PER_PHRASE as nat,
        run,
        false,
        patterns::spc_of(len),
        rate,
        instr,
        seed,
        i * rate,
    );
    lemma_div_multiples_vanish(i, rate as int);
    lemma_mod_multiples_basic(i, rate as int);
    assert(i * rate == rate * i) by (nonlinear_arith);
}

/// `up` rises and `down` falls, through all tones of the chord before they
/// repeat; `updown` rises through them and falls back between the ends.
pub proof fn law_arpeggios_go_their_way(
    c: ChordView,
    p: ArpPattern,
    len: nat,
    rate: nat,
    octaves: i32,
    instr: u8,
    seed: u64,
    i: int,
    j: int,
)
    requires
        c.intervals.len() > 0,
        rate >= 1,
        0 <= i < j,
        j * rate < filled(len),
    ensures
        ({
            let n = patterns::arp_pool(c, octaves).len();
            let a = arp_strike(c, p, len, rate, octaves, instr, seed, i);
            let b = arp_strike(c, p, len, rate, octaves, instr, seed, j);
            &&& p == ArpPattern::Up && j < n ==> a < b
            &&& p == ArpPattern::Down && j < n ==> a > b
            &&& p == ArpPattern::UpDown && j < n ==> a < b
            &&& p == ArpPattern::UpDown && n > 2 && n - 1 <= i && j < 2 * n - 2 ==> a > b
            &&& (p == ArpPattern::Up || p == ArpPattern::Down) && j == i + n ==> a == b
            &&& p == ArpPattern::UpDown && n > 2 && j == i + 2 * n - 2 ==> a == b
        }),
{
    if p != ArpPattern::Random {
        let pool = patterns::arp_pool(c, octaves);
        let run = patterns::arp_run(pool, p);
        let n = pool.len() as int;
        let m = run.len() as int;
        assert(i * rate < j * rate) by (nonlinear_arith)
            requires
                0 <= i < j,
                rate >= 1,
        ;
        lemma_strike(c, p, len, rate, octaves, instr, seed, i);
        lemma_strike(c, p, len, rate, octaves, instr, seed, j);
        lemma_arp_pool(c, octaves);
        if j < m {
            vstd::arithmetic::div_mod::lemma_small_mod(i as nat, m as nat);
            vstd::arithmetic::div_mod::lemma_small_mod(j as nat, m as nat);
        }
        if j == i + m {
            vstd::arithmetic::div_mod::lemma_mod_add_multiples_vanish(i, m);
            assert(m + i == j);
        }
        let a = arp_strike(c, p, len, rate, octaves, instr, seed, i);
        let b = arp_strike(c, p, len, rate, octaves, instr, seed, j);
        if j < m {
            assert(a == run[i] && b == run[j]);
        }
        if p == ArpPattern::Down && j < n {
            assert(run[i] == pool[n - 1 - i] && run[j] == pool[n - 1 - j]);
        }
        if p == ArpPattern::UpDown && j < n {
            assert(run[i] == pool[i] && run[j] == pool[j]);
        }
        if p == ArpPattern::UpDown && n > 2 {
            let back = pool.subrange(1, n - 1).reverse();
            assert(m == 2 * n - 2);
            if n <= i && j < m {
                assert(back[i - n] == pool[2 * n - 2 - i]);
            }
            if n <= j && j < m {
                assert(back[j - n] == pool[2 * n - 2 - j]);
                assert(run[j] == back[j - n]);
            }
            if n <= i && j < m {
                assert(run[i] == back[i - n]);
            } else if i == n - 1 && j < m {
                assert(run[i] == pool[n - 1]);
            }
        }
    }
}

/// Every tone of the chord has its turn before an arpeggio repeats.
pub proof fn law_arpeggios_leave_nothing_out(
    c: ChordView,
    p: ArpPattern,
    len: nat,
    rate: nat,
    octaves: i32,
    instr: u8,
    seed: u64,
    n: u8,
) -> (i: int)
    requires
        c.intervals.len() > 0,
        rate >= 1,
        n < 128,
        is_chord_tone(c, octaves, n),
        p != ArpPattern::Random,
        (patterns::arp_pool(c, octaves).len() - 1) * rate < filled(len),
    ensures
        0 <= i < patterns::arp_pool(c, octaves).len(),
        arp_strike(c, p, len, rate, octaves, instr, seed, i) == n,
{
    let pool = patterns::arp_pool(c, octaves);
    let run = patterns::arp_run(pool, p);
    lemma_arp_pool(c, octaves);
    let k = choose|k: int| 0 <= k < pool.len() && pool[k] == n;
    let i = if p == ArpPattern::Down {
        pool.len() - 1 - k
    } else {
        k
    };
    assert(i * rate <= (pool.len() - 1) * rate) by (nonlinear_arith)
        requires
            0 <= i <= pool.len() - 1,
            rate >= 1,
    ;
    lemma_strike(c, p, len, rate, octaves, instr, seed, i);
    vstd::arithmetic::div_mod::lemma_small_mod(i as nat, run.len());
    i
}

// ---------------------------------------------------------------- chords in time

/// Phrases of whole rows.
pub open spec fn are_grids(ps: Seq<Seq<Seq<Cell>>>) -> bool {
    forall|p: int, s: int|
        0 <= p < ps.len() && 0 <= s < STEPS_PER_PHRASE ==> (#[trigger] ps[p][s]).len() == CHANNELS
}

/// The steps of a chord: one to sixteen.
pub open spec fn chord_len(steps: nat) -> int {
    filled(steps) as int
}

/// How many chords a phrase holds.
pub open spec fn chords_a_phrase(steps: nat) -> int {
    16int / chord_len(steps)
}

/// The phrase of a progression's chord.
pub open spec fn chord_phrase(s: SongView, steps: nat, i: int) -> int {
    s.current_phrase + i / chords_a_phrase(steps)
}

/// The step of its phrase on which a chord begins.
pub open spec fn chord_begin(steps: nat, i: int) -> int {
    (i % chords_a_phrase(steps)) * chord_len(steps)
}

/// Where a chord of a progression sounds.
proof fn lemma_chord_place(s: SongView, count: nat, steps: nat, i: int, o: int)
    requires
        0 <= i < count,
        0 <= o < chord_len(steps),
    ensures
        ({
            let spc = patterns::spc_of(steps);
            let slots = patterns::slots_of(spc);
            let pi = i / chords_a_phrase(steps);
            let at = chord_begin(steps, i) + o;
            &&& spc == chord_len(steps) && slots == chords_a_phrase(steps) && slots >= 1
            &&& 0 <= at < 16
            &&& at % (spc as int) == o
            &&& patterns::chord_at(count, spc, pi, at) == Some(i)
            &&& 0 <= pi < patterns::phrases_for(count, slots)
        }),
{
    let spc = chord_len(steps);
    let slots = chords_a_phrase(steps);
    assert(slots >= 1 && slots * spc <= 16) by (nonlinear_arith)
        requires
            1 <= spc <= 16,
            slots == 16int / spc,
    ;
    let pi = i / slots;
    let slot = i % slots;
    lemma_fundamental_div_mod(i, slots);
    assert(0 <= slot < slots && pi >= 0) by (nonlinear_arith)
        requires
            slot == i % slots,
            pi == i / slots,
            i >= 0,
            slots >= 1,
    ;
    let at = slot * spc + o;
    assert(0 <= slot * spc && slot * spc + spc <= slots * spc) by (nonlinear_arith)
        requires
            0 <= slot < slots,
            spc >= 1,
    ;
    lemma_fundamental_div_mod_converse(at, spc, slot, o);
    assert(pi * slots + slot == i) by (nonlinear_arith)
        requires
            i == slots * pi + slot,
    ;
    let c = count as int;
    assert(pi < (c + slots - 1) / slots) by (nonlinear_arith)
        requires
            pi == i / slots,
            i < c,
            slots >= 1,
    ;
}

proof fn lemma_grown(s: SongView, n: nat, p: int, k: int)
    requires
        are_grids(s.phrases),
        0 <= p < n,
        0 <= k < STEPS_PER_PHRASE,
    ensures
        patterns::grown_to(s.phrases, n).len() >= n,
        patterns::grown_to(s.phrases, n)[p][k].len() == CHANNELS,
{
    if p < s.phrases.len() {
        assert(s.phrases[p][k].len() == CHANNELS);
    }
}

/// A triad in close position, or a chord that begins with one.
pub open spec fn is_triad(c: ChordView) -> bool {
    &&& c.root < 12
    &&& c.intervals.len() >= 3
    &&& c.intervals[0] == 0
    &&& forall|i: int| 0 <= i < c.intervals.len() ==> 0 <= #[trigger] c.intervals[i] < 24
}

/// A bass line goes under its chords on the triangle, from the chord's root in
/// the second octave. `roots` strikes it once, `octaves` goes up an octave and
/// back on every step, `root_fifth` to the fifth and back on every other one,
/// `arpeggio` through third, fifth and octave, and `walking` the same way in
/// eighths, its last note a semitone from the next chord's root.
pub proof fn law_bass_lines_go_under_their_chords(
    s: SongView,
    cs: Seq<ChordView>,
    style: BassStyle,
    steps: nat,
    i: int,
    o: int,
)
    requires
        are_grids(s.phrases),
        0 <= i < cs.len(),
        0 <= o < chord_len(steps),
        is_triad(cs[i]),
        is_triad(cs[(i + 1) % (cs.len() as int)]),
    ensures
        ({
            let x = patterns::with_bass(s, cs, style, steps).phrases[chord_phrase(
                s,
                steps,
                i,
            )][chord_begin(steps, i) + o][2];
            let c = cs[i];
            let root = 36 + c.root;
            let third = root + c.intervals[1];
            let fifth = root + c.intervals[2];
            let next = 36 + cs[(i + 1) % (cs.len() as int)].root;
            let n = x.note->0;
            &&& x.note is Some ==> x.instr == 2 && x.vol == 15
            &&& o == 0 ==> x.note is Some && n == root
            &&& style == BassStyle::Roots && o > 0 ==> x.note is None
            &&& style == BassStyle::Octaves ==> x.note is Some && n == (if o % 2 == 0 {
                root
            } else {
                root + 12
            })
            &&& style == BassStyle::Arpeggio ==> x.note is Some && n == (if o % 4 == 0 {
                root as int
            } else if o % 4 == 1 {
                third as int
            } else if o % 4 == 2 {
                fifth as int
            } else {
                root + 12
            })
            &&& style == BassStyle::RootFifth || style == BassStyle::Walking ==> (x.note is Some
                <==> o % 2 == 0)
            &&& style == BassStyle::RootFifth && o % 2 == 0 ==> n == (if o % 4 == 0 {
                root as int
            } else {
                fifth as int
            })
            &&& style == BassStyle::Walking && chord_len(steps) >= 4 && o % 2 == 0 && o / 2
                == chord_len(steps) / 2 - 1 ==> n == next + 1 || n == next - 1
            &&& style == BassStyle::Walking && o == 2 && chord_len(steps) >= 6 ==> n == third
            &&& style == BassStyle::Walking && o == 4 && chord_len(steps) >= 8 ==> n == fifth
        }),
{
    lemma_chord_place(s, cs.len(), steps, i, o);
    let spc = patterns::spc_of(steps);
    let n = patterns::phrases_for(cs.len(), patterns::slots_of(spc));
    let pi = i / chords_a_phrase(steps);
    let at = chord_begin(steps, i) + o;
    lemma_grown(s, (s.current_phrase + n) as nat, s.current_phrase + pi, at);
    let x = patterns::bass_cell(cs, style, spc, pi, at);
    assert(patterns::with_bass(s, cs, style, steps).phrases[s.current_phrase + pi][at][2] == x);
    let c = cs[i];
    let d = cs[(i + 1) % (cs.len() as int)];
    assert(c.intervals[0] == 0 && 0 <= c.intervals[1] < 24 && 0 <= c.intervals[2] < 24);
    assert(d.intervals[0] == 0);
    assert(patterns::bass_note(c) == 36 + c.root);
    assert(patterns::bass_note(d) == 36 + d.root);
    let half = spc as int / 2;
    if style == BassStyle::Walking && o % 2 == 0 {
        let k = o / 2;
        if half >= 1 && k < half {
            vstd::arithmetic::div_mod::lemma_small_mod(k as nat, half as nat);
        } else {
            assert(half == 0 || k == half);
            if half >= 1 {
                assert(k % half == 0) by (nonlinear_arith)
                    requires
                        k == half,
                        half >= 1,
                ;
            }
        }
    }
    if style == BassStyle::Roots && o > 0 {
        vstd::arithmetic::div_mod::lemma_small_mod(o as nat, spc);
    }
}

/// A progression plays each chord on its beat: the top tone on the first
/// pulse, the second tone on the other, the root two octaves below on the
/// triangle, and all again half-way through, more softly, where the chord is
/// long enough. Hats go between on noise.
pub proof fn law_progressions_voice_their_chords(
    s: SongView,
    cs: Seq<ChordView>,
    steps: nat,
    i: int,
    o: int,
)
    requires
        are_grids(s.phrases),
        0 <= i < cs.len(),
        0 <= o < chord_len(steps),
        is_triad(cs[i]),
    ensures
        ({
            let row = patterns::with_prog(s, cs, steps).phrases[chord_phrase(
                s,
                steps,
                i,
            )][chord_begin(steps, i) + o];
            let c = cs[i];
            let again = chord_len(steps) >= 4 && o == chord_len(steps) / 2;
            &&& o == 0 || again ==> {
                &&& row[0].note == Some((60 + c.root + c.intervals.last()) as u8) && row[0].instr == 0
                &&& row[1].note == Some((60 + c.root + c.intervals[1]) as u8) && row[1].instr == 1
                &&& row[2].note == Some((36 + c.root) as u8) && row[2].instr == 2
            }
            &&& o == 0 ==> row[0].vol == 15 && row[1].vol == 13 && row[2].vol == 15
            &&& again ==> row[0].vol == 10 && row[1].vol == 9 && row[2].vol == 12
            &&& o != 0 && !again ==> row[0].note is None && row[1].note is None && row[2].note
                is None
            &&& row[3].note is Some <==> (chord_begin(steps, i) + o) % 2 == 1
        }),
{
    lemma_chord_place(s, cs.len(), steps, i, o);
    let spc = patterns::spc_of(steps);
    let n = patterns::phrases_for(cs.len(), patterns::slots_of(spc));
    let pi = i / chords_a_phrase(steps);
    let at = chord_begin(steps, i) + o;
    let ps = patterns::grown_to(s.phrases, (s.current_phrase + n) as nat);
    lemma_grown(s, (s.current_phrase + n) as nat, s.current_phrase + pi, at);
    let g = ps[s.current_phrase + pi];
    let row = patterns::with_prog(s, cs, steps).phrases[s.current_phrase + pi][at];
    assert(row == patterns::prog_grid(g, cs, spc, pi)[at]);
    assert(row[0] == patterns::prog_cell(cs, spc, pi, at, 0));
    assert(row[1] == patterns::prog_cell(cs, spc, pi, at, 1));
    assert(row[2] == patterns::prog_cell(cs, spc, pi, at, 2));
    assert(row[3] == patterns::prog_cell(cs, spc, pi, at, 3));
    let c = cs[i];
    let k = c.intervals.len() - 1;
    assert(c.intervals[0] == 0 && 0 <= c.intervals[1] < 24 && 0 <= c.intervals[k] < 24);
    assert(patterns::top_note(c) == 60 + c.root + c.intervals.last());
    assert(patterns::mid_note(c) == 60 + c.root + c.intervals[1]);
    assert(patterns::bass_note(c) == 36 + c.root);
}

// ---------------------------------------------------------------- melodies, drums, automata

/// A note of a mode in an octave.
pub open spec fn mode_note(key: u8, mode: Mode, o: int, i: int) -> int {
    12 * (o + 1) + key + gen::mode_steps(mode)[i]
}

/// A rest, or a note of a mode in one of some octaves.
pub open spec fn is_in_mode(x: Cell, key: u8, mode: Mode, low: i32, span: u32) -> bool {
    x.note is Some ==> exists|o: int, i: int|
        low <= o < low + span && 0 <= i < gen::mode_steps(mode).len() && x.note->0
            == #[trigger] mode_note(key, mode, o, i)
}

proof fn lemma_range(x: u64, hi: u32)
    requires
        hi > 0,
    ensures
        gen::rng_range(x, 0, hi) < hi,
{
    let v = gen::rng_value(x);
    assert((v % hi) < hi);
}

proof fn lemma_melody_step(
    k: nat,
    seed: u64,
    key: u8,
    mode: Mode,
    odds: u64,
    low: i32,
    span: u32,
    instr: u8,
)
    requires
        span > 0,
    ensures
        ({
            let a = patterns::scale_steps(k, seed, key, mode, odds, low, span, instr).0;
            let b = patterns::scale_steps(k + 1, seed, key, mode, odds, low, span, instr).0;
            &&& b == a.push(b.last())
            &&& b.len() == a.len() + 1
            &&& is_in_mode(b.last(), key, mode, low, span)
            &&& b.last().note is Some ==> b.last().instr == instr
        }),
{
    let x = patterns::scale_steps(k, seed, key, mode, odds, low, span, instr).1;
    let x2 = gen::rng_next(gen::rng_next(x));
    let x3 = gen::rng_next(x2);
    let n = gen::mode_steps(mode).len() as u32;
    lemma_range(x2, n);
    lemma_range(x3, span);
    let i = gen::rng_range(x2, 0, n) as int;
    let o = low + gen::rng_range(x3, 0, span);
    let b = patterns::scale_steps(k + 1, seed, key, mode, odds, low, span, instr).0;
    if b.last().note is Some {
        assert(b.last().note->0 == mode_note(key, mode, o, i));
    }
}

/// A random melody keeps to its mode and to the octaves it is given.
pub proof fn law_melodies_keep_to_their_mode(
    k: nat,
    seed: u64,
    key: u8,
    mode: Mode,
    odds: u64,
    low: i32,
    span: u32,
    instr: u8,
)
    requires
        span > 0,
    ensures
        ({
            let col = patterns::scale_steps(k, seed, key, mode, odds, low, span, instr).0;
            &&& col.len() == k
            &&& forall|s: int|
                0 <= s < k ==> is_in_mode(#[trigger] col[s], key, mode, low, span) && (
                col[s].note is Some ==> col[s].instr == instr)
        }),
    decreases k,
{
    if k > 0 {
        let a = patterns::scale_steps((k - 1) as nat, seed, key, mode, odds, low, span, instr).0;
        let b = patterns::scale_steps(k, seed, key, mode, odds, low, span, instr).0;
        law_melodies_keep_to_their_mode((k - 1) as nat, seed, key, mode, odds, low, span, instr);
        lemma_melody_step((k - 1) as nat, seed, key, mode, odds, low, span, instr);
        assert forall|s: int| 0 <= s < k implies is_in_mode(
            #[trigger] b[s],
            key,
            mode,
            low,
            span,
        ) && (b[s].note is Some ==> b[s].instr == instr) by {
            if s < k - 1 {
                assert(b[s] == a[s]);
            }
        }
    }
}

/// Whether a mask has a hit on a step.
pub open spec fn is_hit(mask: Seq<char>, s: int) -> bool {
    mask[s] == 'x' || mask[s] == 'X'
}

/// Drums strike where their masks do. With samples, snare and kick are
/// samples, the snare first, and hats are noise; without, all are noise, the
/// kick first. A fill adds snares to the last beat and nothing before it.
pub proof fn law_drums_strike_their_masks(
    g: Seq<Seq<Cell>>,
    p: DrumView,
    fills: nat,
    dpcm: bool,
    s: int,
)
    requires
        0 <= s < STEPS_PER_PHRASE,
        g[s].len() == CHANNELS,
        p.kick.len() == 16 && p.snare.len() == 16 && p.hat.len() == 16 && p.open.len() == 16,
        fills == 0 || s < 12,
    ensures
        ({
            let row = patterns::drum_grid(g, p, fills, dpcm)[s];
            let kick = is_hit(p.kick, s);
            let snare = is_hit(p.snare, s);
            let hat = is_hit(p.hat, s);
            let open = is_hit(p.open, s);
            &&& row[0] == g[s][0] && row[1] == g[s][1] && row[2] == g[s][2]
            &&& dpcm ==> {
                &&& snare ==> row[4].note == Some(61u8)
                &&& kick && !snare ==> row[4].note == Some(60u8)
                &&& !kick && !snare ==> row[4].note is None
                &&& open ==> row[3].note == Some(55u8)
                &&& !open && kick && snare ==> row[3].note == Some(36u8)
                &&& !open && !(kick && snare) && hat ==> row[3].note == Some(60u8)
                &&& !open && !(kick && snare) && !hat ==> row[3].note is None
            }
            &&& !dpcm ==> {
                &&& row[4] == g[s][4]
                &&& kick ==> row[3].note == Some(36u8)
                &&& !kick && snare ==> row[3].note == Some(50u8)
                &&& !kick && !snare && open ==> row[3].note == Some(55u8)
                &&& !kick && !snare && !open && hat ==> row[3].note == Some(60u8)
                &&& !kick && !snare && !open && !hat ==> row[3].note is None
            }
        }),
{
}

/// A fill strikes as many snares over the last beat as are asked for, four at
/// most, besides those that are there.
pub proof fn law_fills_end_the_bar(g: Seq<Seq<Cell>>, p: DrumView, fills: nat, s: int)
    requires
        12 <= s < STEPS_PER_PHRASE,
        g[s].len() == CHANNELS,
        p.snare.len() == 16,
        fills >= 4,
    ensures
        patterns::drum_grid(g, p, fills, true)[s][4].note == Some(61u8),
{
    let k = s - 12;
    let m = gen::euclid_pattern(4, 4, 0);
    assert((k + 4 - 0) % 4 == k);
    assert(gen::even_hit(k, 4, 4)) by {
        assert((k + 1) * 4 / 4 > k * 4 / 4);
    }
    assert(m[k]);
}

/// A Euclidean channel strikes its note just where the pattern hits.
pub proof fn law_euclid_strikes_its_pattern(k: nat, n: nat, offset: nat, note: u8, instr: u8, s: int)
    requires
        0 <= s < STEPS_PER_PHRASE,
        1 <= n <= STEPS_PER_PHRASE,
    ensures
        ({
            let x = patterns::euclid_column(k, n, offset, note, instr)[s];
            let m = gen::euclid_pattern(k, n, offset);
            &&& s < n && m[s] ==> x.note == Some(note) && x.instr == instr && x.vol == 15
            &&& s >= n || !m[s] ==> x.note is None && !x.hold
        }),
{
}

/// An L-system's symbols are played one a step: a symbol that the map names
/// plays what it says, another letter climbs the mode with its place in the
/// alphabet, and anything else rests.
pub proof fn law_symbols_play_their_notes(
    symbols: Seq<char>,
    map: Seq<(char, Option<u8>)>,
    ch: Channel,
    key: u8,
    mode: Mode,
    s: int,
    j: int,
)
    requires
        0 <= s < STEPS_PER_PHRASE,
        0 <= j < map.len(),
        forall|i: int| 0 <= i < j ==> (#[trigger] map[i]).0 != symbols[s],
    ensures
        ({
            let x = automata::lsystem_column(symbols, map, ch, key, mode)[s];
            &&& s >= symbols.len() ==> x.note is None
            &&& s < symbols.len() && map[j].0 == symbols[s] ==> x.note == map[j].1
        }),
{
    if s < symbols.len() && map[j].0 == symbols[s] {
        lemma_mapped(map, symbols[s], 0, j);
    }
}

proof fn lemma_mapped(map: Seq<(char, Option<u8>)>, c: char, i: nat, j: int)
    requires
        i <= j < map.len(),
        map[j].0 == c,
        forall|k: int| i <= k < j ==> (#[trigger] map[k]).0 != c,
    ensures
        automata::mapped(map, c, i) == Some(map[j].1),
    decreases j - i,
{
    if i < j {
        assert(map[i as int].0 != c);
        lemma_mapped(map, c, i + 1, j);
    }
}

proof fn lemma_unmapped(map: Seq<(char, Option<u8>)>, c: char, i: nat)
    requires
        forall|k: int| 0 <= k < map.len() ==> (#[trigger] map[k]).0 != c,
    ensures
        automata::mapped(map, c, i) is None,
    decreases map.len() - i,
{
    if i < map.len() {
        assert(map[i as int].0 != c);
        lemma_unmapped(map, c, i + 1);
    }
}

/// A letter that no map names climbs the mode: `A` is its first step in the
/// channel's lowest octave.
pub proof fn law_letters_climb_the_mode(
    symbols: Seq<char>,
    map: Seq<(char, Option<u8>)>,
    ch: Channel,
    key: u8,
    mode: Mode,
    s: int,
)
    requires
        0 <= s < STEPS_PER_PHRASE,
        s < symbols.len(),
        key < 12,
        forall|k: int| 0 <= k < map.len() ==> (#[trigger] map[k]).0 != symbols[s],
    ensures
        ({
            let x = automata::lsystem_column(symbols, map, ch, key, mode)[s];
            let c = symbols[s];
            let steps = gen::mode_steps(mode);
            let d = if 'a' <= c && c <= 'z' {
                c as int - 'a' as int
            } else {
                c as int - 'A' as int
            };
            let low = match ch {
                Channel::Pu1 => 4int,
                Channel::Pu2 => 3,
                Channel::Tri => 2,
                Channel::Noi => 3,
                Channel::Dpcm => 4,
            };
            &&& ('a' <= c && c <= 'z') || ('A' <= c && c <= 'Z') ==> x.note is Some && x.note->0
                == in_midi(
                12 * (low + d / steps.len() as int + 1) + key + steps[d % (steps.len() as int)],
            )
            &&& !(('a' <= c && c <= 'z') || ('A' <= c && c <= 'Z')) ==> x.note is None
        }),
{
    lemma_unmapped(map, symbols[s], 0);
}

/// A generation is rewritten symbol by symbol: what comes of two texts, one
/// after the other, is what comes of each, as long as there is room.
pub proof fn law_rewriting_is_symbol_by_symbol(
    acc: Seq<char>,
    a: Seq<char>,
    b: Seq<char>,
    rules: Seq<(char, Seq<char>)>,
)
    requires
        automata::rewrite_from(acc, a, rules).len() < automata::MAX_SYMBOLS,
    ensures
        automata::rewrite_from(acc, a + b, rules) == automata::rewrite_from(
            automata::rewrite_from(acc, a, rules),
            b,
            rules,
        ),
    decreases a.len(),
{
    if a.len() == 0 {
        assert(a + b =~= b);
    } else {
        assert((a + b)[0] == a[0]);
        assert((a + b).skip(1) =~= a.skip(1) + b);
        let next = acc + automata::rewritten(rules, a[0], 0);
        law_rewriting_is_symbol_by_symbol(next, a.skip(1), b, rules);
    }
}

/// A symbol is replaced by the right side of the first rule for it, and kept
/// where there is none.
pub proof fn law_symbols_are_replaced(rules: Seq<(char, Seq<char>)>, c: char, j: int)
    requires
        forall|k: int| 0 <= k < j && k < rules.len() ==> (#[trigger] rules[k]).0 != c,
        0 <= j <= rules.len(),
        j < rules.len() ==> rules[j].0 == c,
    ensures
        automata::rewritten(rules, c, 0) == (if j < rules.len() {
            rules[j].1
        } else {
            seq![c]
        }),
{
    lemma_rewritten(rules, c, 0, j);
}

proof fn lemma_rewritten(rules: Seq<(char, Seq<char>)>, c: char, i: nat, j: int)
    requires
        i <= j <= rules.len(),
        forall|k: int| i <= k < j ==> (#[trigger] rules[k]).0 != c,
        j < rules.len() ==> rules[j].0 == c,
    ensures
        automata::rewritten(rules, c, i) == (if j < rules.len() {
            rules[j].1
        } else {
            seq![c]
        }),
    decreases j - i,
{
    if i < j {
        assert(rules[i as int].0 != c);
        lemma_rewritten(rules, c, i + 1, j);
    }
}

/// Two to a power of at most seven.
pub open spec fn bit_value(k: int) -> int {
    if k <= 0 {
        1
    } else if k == 1 {
        2
    } else if k == 2 {
        4
    } else if k == 3 {
        8
    } else if k == 4 {
        16
    } else if k == 5 {
        32
    } else if k == 6 {
        64
    } else {
        128
    }
}

/// A cell of an automaton lives on by its rule: its neighbours and itself,
/// read as three binary digits from left to right, pick the binary digit of
/// the rule's number. The ends of a row are neighbours.
pub proof fn law_automata_obey_their_rule(rule: u8, row: Seq<bool>, i: int)
    requires
        0 <= i < row.len(),
    ensures
        ({
            let w = row.len() as int;
            let left = row[if i == 0 {
                w - 1
            } else {
                i - 1
            }];
            let right = row[if i == w - 1 {
                0
            } else {
                i + 1
            }];
            let k = (if left {
                4int
            } else {
                0
            }) + (if row[i] {
                2int
            } else {
                0
            }) + (if right {
                1int
            } else {
                0
            });
            automata::next_row(rule, row)[i] == (rule as int / bit_value(k) % 2 == 1)
        }),
{
    let w = row.len() as int;
    if i == 0 {
        vstd::arithmetic::div_mod::lemma_small_mod((w - 1) as nat, w as nat);
    } else {
        vstd::arithmetic::div_mod::lemma_mod_add_multiples_vanish(i - 1, w);
        vstd::arithmetic::div_mod::lemma_small_mod((i - 1) as nat, w as nat);
        assert(w + (i - 1) == i + w - 1);
    }
    if i == w - 1 {
        vstd::arithmetic::div_mod::lemma_mod_self_0(w);
    } else {
        vstd::arithmetic::div_mod::lemma_small_mod((i + 1) as nat, w as nat);
    }
    assert((rule >> 0u8) & 1u8 == rule / 1u8 % 2u8 && (rule >> 1u8) & 1u8 == rule / 2u8 % 2u8 && (
    rule >> 2u8) & 1u8 == rule / 4u8 % 2u8 && (rule >> 3u8) & 1u8 == rule / 8u8 % 2u8 && (rule
        >> 4u8) & 1u8 == rule / 16u8 % 2u8 && (rule >> 5u8) & 1u8 == rule / 32u8 % 2u8 && (rule
        >> 6u8) & 1u8 == rule / 64u8 % 2u8 && (rule >> 7u8) & 1u8 == rule / 128u8 % 2u8)
        by (bit_vector);
}

/// A step strikes when the middle cell of its generation lives, on a note of
/// the mode within the channel's octaves, no lower for more live cells.
pub proof fn law_generations_strike_when_their_middle_lives(
    row: Seq<bool>,
    ch: Channel,
    key: u8,
    mode: Mode,
)
    requires
        row.len() >= 3,
        key < 12,
    ensures
        ({
            let x = automata::ca_cell(row, ch, key, mode);
            &&& x.note is Some <==> row[row.len() as int / 2]
            &&& x.note is Some ==> exists|d: int|
                0 <= d < 14 && x.note->0 == #[trigger] automata::degree_note(
                    d,
                    patterns::octaves_of(ch).0 as int,
                    key,
                    mode,
                )
        }),
{
    let (low, high) = patterns::octaves_of(ch);
    let n = gen::mode_steps(mode).len();
    let span = (high - low + 1) * n;
    assert(0 < span <= 14) by (nonlinear_arith)
        requires
            span == (high - low + 1) * n,
            1 <= high - low + 1 <= 2,
            1 <= n <= 7,
    ;
    let c = gen::count_hits(row);
    let d = c * span / (row.len() + 1) as int;
    assert(d >= 0) by (nonlinear_arith)
        requires
            d == c * span / (row.len() + 1) as int,
            c >= 0,
            span > 0,
            row.len() >= 0,
    ;
    let deg = if d < span - 1 {
        d
    } else {
        span - 1
    };
    if row[row.len() as int / 2] {
        assert(automata::ca_cell(row, ch, key, mode).note->0 == automata::degree_note(
            deg,
            low as int,
            key,
            mode,
        ));
    }
}

/// An automaton starts with one live cell, at the left edge or in the middle,
/// unless it starts at random.
pub proof fn law_automata_start_with_one_cell(seed: Seq<char>, width: nat, x: u64, i: int)
    requires
        0 <= i < width,
        seed != "random"@,
    ensures
        ({
            let (row, y) = automata::first_row(seed, width, x);
            &&& row.len() == width && y == x
            &&& seed == "left"@ ==> (row[i] <==> i == 0)
            &&& seed != "left"@ ==> (row[i] <==> i == width as int / 2)
        }),
{
    reveal_strlit("left");
    reveal_strlit("random");
}

/// Each step of an automaton's channel is played by the next generation.
pub proof fn law_steps_follow_generations(
    rule: u8,
    first: Seq<bool>,
    ch: Channel,
    key: u8,
    mode: Mode,
    s: int,
)
    requires
        0 <= s < STEPS_PER_PHRASE,
    ensures
        s == 0 ==> automata::ca_column(rule, first, ch, key, mode)[s] == automata::ca_cell(
            first,
            ch,
            key,
            mode,
        ),
        s > 0 ==> automata::ca_column(rule, first, ch, key, mode)[s] == automata::ca_column(
            rule,
            automata::next_row(rule, first),
            ch,
            key,
            mode,
        )[s - 1],
{
    if s > 0 {
        lemma_generations(rule, first, (s - 1) as nat);
    }
}

proof fn lemma_generations(rule: u8, first: Seq<bool>, n: nat)
    ensures
        automata::row_after(rule, first, n + 1) == automata::row_after(
            rule,
            automata::next_row(rule, first),
            n,
        ),
    decreases n,
{
    reveal_with_fuel(automata::row_after, 2);
    if n > 0 {
        lemma_generations(rule, first, (n - 1) as nat);
    }
}

} // verus!
