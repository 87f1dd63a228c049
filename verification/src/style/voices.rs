//! One bar of a riff: the lead line and the harmony, bass and drums that go
//! with it.

use vstd::arithmetic::div_mod::lemma_fundamental_div_mod_converse;
use vstd::prelude::*;

use crate::gen;
use crate::gen::chord;
use crate::gen::odds;
use crate::gen::Rng;
use crate::song::STEPS_PER_PHRASE;
use crate::style;
use crate::style::{ChordSym, Drums, DrumsView, Riff, RiffView, Style, StyleView};
use crate::text;

verus! {

/// Probabilities out of 2^32, at the precision of the draw.
pub const CHANCE_20: u64 = 858993472;

pub const CHANCE_25: u64 = 1073741824;

pub const CHANCE_30: u64 = 1288490240;

pub const CHANCE_35: u64 = 1503238528;

pub const CHANCE_50: u64 = 2147483648;

pub const CHANCE_55: u64 = 2362232064;

pub const CHANCE_70: u64 = 3006477056;

/// The letter of the slide effect.
pub const SLIDE: u8 = 0x53;

/// Whether a draw, made by stepping the generator to `x`, hits.
pub open spec fn lucky(x: u64, p: u64) -> bool {
    odds::falls_below(gen::rng_value(x), p)
}

// ---------------------------------------------------------------- pitch

/// Quotient and remainder, the remainder never negative.
fn floor_div(a: i64, n: i64) -> (r: (i64, i64))
    requires
        n > 0,
        a > i64::MIN,
    ensures
        r.0 == a as int / n as int,
        r.1 == a as int % n as int,
        0 <= r.1 < n,
{
    if a >= 0 {
        let q: u64 = a as u64 / n as u64;
        let m: u64 = a as u64 % n as u64;
        (q as i64, m as i64)
    } else {
        let m: u64 = (-(a + 1)) as u64;
        let q: u64 = m / n as u64;
        let rem: u64 = m % n as u64;
        proof {
            let qq = -(q as int) - 1;
            let rr = n as int - 1 - rem as int;
            assert(m as int == q as int * n as int + rem as int) by (nonlinear_arith)
                requires
                    q == m / (n as u64),
                    rem == m % (n as u64),
                    n > 0,
            ;
            assert(a as int == -(m as int) - 1);
            assert(qq * n as int == -(q as int * n as int) - n as int) by (nonlinear_arith)
                requires
                    qq == -(q as int) - 1,
            ;
            assert(a as int == qq * n as int + rr);
            lemma_fundamental_div_mod_converse(a as int, n as int, qq, rr);
        }
        (-(q as i64) - 1, n - 1 - rem as i64)
    }
}

pub open spec fn gap(a: int, b: int) -> int {
    if a < b {
        b - a
    } else {
        a - b
    }
}

/// The first of the first `k` scale steps that is nearest to a pitch class,
/// and how far off it is.
pub open spec fn nearest_in(scale: Seq<u8>, pc: int, k: nat) -> (int, int)
    decreases k,
{
    if k == 0 {
        (0, 99)
    } else {
        let (best, off) = nearest_in(scale, pc, (k - 1) as nat);
        let d = gap(scale[k - 1] as int, pc);
        if d < off {
            (k - 1, d)
        } else {
            (best, off)
        }
    }
}

/// The scale degree nearest to a semitone offset from the tonic.
pub open spec fn nearest_degree(scale: Seq<u8>, semis: int) -> int {
    (semis / 12) * scale.len() + nearest_in(scale, semis % 12, scale.len()).0
}

/// The note of a scale degree; any integer is one.
pub open spec fn degree_note(scale: Seq<u8>, key: u8, deg: int, octave: int) -> u8 {
    chord::clamp(
        (octave + deg / scale.len() as int + 1) * 12 + key + scale[deg % scale.len() as int],
        24,
        119,
    ) as u8
}

/// Root, third and fifth of a chord: the root in semitones above the tonic,
/// the others above the root.
pub open spec fn triad(scale: Seq<u8>, sym: ChordSym) -> (int, int, int) {
    let n = scale.len() as int;
    let deg = if sym.degree < n {
        sym.degree as int
    } else {
        n - 1
    };
    let root = scale[deg] + sym.accidental;
    if sym.accidental == 0 {
        (
            root,
            scale[(deg + 2) % n] + (if deg + 2 >= n {
                12int
            } else {
                0
            }) - root,
            scale[(deg + 4) % n] + (if deg + 4 >= n {
                12int
            } else {
                0
            }) - root,
        )
    } else {
        (
            root,
            if sym.minor {
                3
            } else {
                4
            },
            7,
        )
    }
}

/// A chord of the scale.
#[derive(Clone, Copy)]
pub struct Triad {
    pub root: i64,
    pub third: i64,
    pub fifth: i64,
}

impl Triad {
    pub open spec fn is(self, t: (int, int, int)) -> bool {
        self.root == t.0 && self.third == t.1 && self.fifth == t.2
    }

    /// Within what a scale of bytes and an accidental give.
    pub open spec fn small(self) -> bool {
        &&& -0x1_0000_0000 <= self.root <= 0x1_0000_0000
        &&& -1000 <= self.third <= 1000
        &&& -1000 <= self.fifth <= 1000
    }
}

pub fn triad_of(scale: &Vec<u8>, sym: ChordSym) -> (r: Triad)
    requires
        0 < scale@.len() <= u32::MAX,
    ensures
        r.is(triad(scale@, sym)),
        r.small(),
{
    let n: usize = scale.len();
    let deg: usize = if sym.degree < n {
        sym.degree
    } else {
        n - 1
    };
    let root: i64 = scale[deg] as i64 + sym.accidental as i64;
    if sym.accidental == 0 {
        let i3: u64 = (deg as u64 + 2) % n as u64;
        let i5: u64 = (deg as u64 + 4) % n as u64;
        let up3: i64 = if deg as u64 + 2 >= n as u64 {
            12
        } else {
            0
        };
        let up5: i64 = if deg as u64 + 4 >= n as u64 {
            12
        } else {
            0
        };
        let third: i64 = scale[i3 as usize] as i64 + up3 - root;
        let fifth: i64 = scale[i5 as usize] as i64 + up5 - root;
        Triad { root, third, fifth }
    } else {
        let third: i64 = if sym.minor {
            3
        } else {
            4
        };
        Triad { root, third, fifth: 7 }
    }
}

/// How large a scale degree gets.
pub open spec fn near(d: int) -> bool {
    -0x3100_0000_0000_0000 < d < 0x3100_0000_0000_0000
}

pub fn nearest_degree_of(scale: &Vec<u8>, semis: i64) -> (r: i64)
    requires
        0 < scale@.len() <= u32::MAX,
        -0x2_0000_0000 <= semis <= 0x2_0000_0000,
    ensures
        r == nearest_degree(scale@, semis as int),
        near(r as int),
{
    let (oct, pc): (i64, i64) = floor_div(semis, 12);
    let mut best: i64 = 0;
    let mut off: i64 = 99;
    for i in 0..scale.len()
        invariant
            scale@.len() <= u32::MAX,
            0 <= pc < 12,
            (best as int, off as int) == nearest_in(scale@, pc as int, i as nat),
            0 <= best <= i,
            0 <= off <= 99,
    {
        let iv: i64 = scale[i] as i64;
        let d: i64 = if iv < pc {
            pc - iv
        } else {
            iv - pc
        };
        if d < off {
            off = d;
            best = i as i64;
        }
    }
    let n: i64 = scale.len() as i64;
    assert(-0x2_0000_0000 <= oct <= 0x2_0000_0000);
    assert(-0x3000_0000 <= oct <= 0x3000_0000);
    assert(-0x3000_0000_0000_0000 <= oct * n <= 0x3000_0000_0000_0000) by (nonlinear_arith)
        requires
            -0x3000_0000 <= oct <= 0x3000_0000,
            0 < n <= 0xffff_ffff,
    ;
    oct * n + best
}

pub fn degree_note_of(scale: &Vec<u8>, key: u8, deg: i64, octave: i32) -> (r: u8)
    requires
        0 < scale@.len() <= u32::MAX,
        deg > i64::MIN,
    ensures
        r == degree_note(scale@, key, deg as int, octave as int),
{
    let (q, m): (i64, i64) = floor_div(deg, scale.len() as i64);
    assert(-0x8000_0000_0000_0000 <= q <= 0x7fff_ffff_ffff_ffff);
    let note: i128 = (octave as i128 + q as i128 + 1) * 12 + key as i128 + scale[m as usize] as i128;
    if note < 24 {
        24
    } else if note > 119 {
        119
    } else {
        note as u8
    }
}

// ---------------------------------------------------------------- the lead line

/// How a riff gives its hits pitches.
#[derive(Clone, Copy, Debug, PartialEq, Eq, Structural)]
pub enum Contour {
    Pedal,
    PedalJumps,
    PedalThenRun,
    Walk,
    Run,
    Chord,
    Melody,
    Motif,
    /// The root throughout.
    Flat,
}

pub open spec fn contour_named(s: Seq<char>) -> Contour {
    if s == "pedal"@ {
        Contour::Pedal
    } else if s == "pedal_jumps"@ {
        Contour::PedalJumps
    } else if s == "pedal_then_run"@ {
        Contour::PedalThenRun
    } else if s == "walk"@ {
        Contour::Walk
    } else if s == "run"@ {
        Contour::Run
    } else if s == "chord"@ {
        Contour::Chord
    } else if s == "melody"@ {
        Contour::Melody
    } else if s == "motif"@ {
        Contour::Motif
    } else {
        Contour::Flat
    }
}

pub fn read_contour(s: &str) -> (r: Contour)
    ensures
        r == contour_named(s@),
{
    if text::same_str(s, "pedal") {
        Contour::Pedal
    } else if text::same_str(s, "pedal_jumps") {
        Contour::PedalJumps
    } else if text::same_str(s, "pedal_then_run") {
        Contour::PedalThenRun
    } else if text::same_str(s, "walk") {
        Contour::Walk
    } else if text::same_str(s, "run") {
        Contour::Run
    } else if text::same_str(s, "chord") {
        Contour::Chord
    } else if text::same_str(s, "melody") {
        Contour::Melody
    } else if text::same_str(s, "motif") {
        Contour::Motif
    } else {
        Contour::Flat
    }
}

/// The degrees a line moves between: the chord's root, third and fifth, the
/// note a semitone above the root, and the tritone; and the scale's size.
pub struct Degrees {
    pub root: int,
    pub third: int,
    pub fifth: int,
    pub second: int,
    pub tritone: int,
    pub size: int,
}

pub open spec fn degrees(scale: Seq<u8>, t: (int, int, int)) -> Degrees {
    Degrees {
        root: nearest_degree(scale, t.0),
        third: nearest_degree(scale, t.0 + t.1),
        fifth: nearest_degree(scale, t.0 + t.2),
        second: nearest_degree(scale, t.0 + 1),
        tritone: nearest_degree(scale, t.0 + 6),
        size: scale.len() as int,
    }
}

impl Degrees {
    /// A chord tone by number.
    pub open spec fn tone(self, i: int) -> int {
        if i == 0 {
            self.root
        } else if i == 1 {
            self.third
        } else {
            self.fifth
        }
    }

    /// A chord tone by draw.
    pub open spec fn drawn(self, x: u64) -> int {
        self.tone(gen::rng_range(x, 0, 3) as int)
    }
}

#[derive(Clone, Copy)]
struct Degs {
    root: i64,
    third: i64,
    fifth: i64,
    second: i64,
    tritone: i64,
    size: i64,
}

impl Degs {
    spec fn is(self, d: Degrees) -> bool {
        &&& self.root == d.root && near(d.root)
        &&& self.third == d.third && near(d.third)
        &&& self.fifth == d.fifth && near(d.fifth)
        &&& self.second == d.second && near(d.second)
        &&& self.tritone == d.tritone && near(d.tritone)
        &&& self.size == d.size
        &&& 0 < self.size <= u32::MAX
    }

    fn tone(&self, i: usize, Ghost(d): Ghost<Degrees>) -> (r: i64)
        requires
            self.is(d),
        ensures
            r == d.tone(i as int),
            near(r as int),
    {
        if i == 0 {
            self.root
        } else if i == 1 {
            self.third
        } else {
            self.fifth
        }
    }

    fn draw(&self, rng: &mut Rng, Ghost(d): Ghost<Degrees>) -> (r: i64)
        requires
            self.is(d),
        ensures
            final(rng).state == gen::rng_next(old(rng).state),
            r == d.drawn(final(rng).state),
            near(r as int),
    {
        let i: u32 = rng.range(0, 3);
        self.tone(i as usize, Ghost(d))
    }
}

fn degs_of(scale: &Vec<u8>, t: Triad) -> (r: Degs)
    requires
        0 < scale@.len() <= u32::MAX,
        t.small(),
    ensures
        r.is(degrees(scale@, (t.root as int, t.third as int, t.fifth as int))),
{
    Degs {
        root: nearest_degree_of(scale, t.root),
        third: nearest_degree_of(scale, t.root + t.third),
        fifth: nearest_degree_of(scale, t.root + t.fifth),
        second: nearest_degree_of(scale, t.root + 1),
        tritone: nearest_degree_of(scale, t.root + 6),
        size: scale.len() as i64,
    }
}

/// The hits of a rhythm among its first `k` steps.
pub open spec fn hits_below(rhythm: Seq<bool>, k: nat) -> Seq<int>
    decreases k,
{
    if k == 0 {
        Seq::empty()
    } else {
        let before = hits_below(rhythm, (k - 1) as nat);
        if rhythm[k - 1] {
            before.push(k - 1)
        } else {
            before
        }
    }
}

/// One hit of a line that stays on the root, but for jabs at its end, jumps,
/// or a last note: the pitch, where the jabs stand, and the generator.
pub open spec fn pedal_hit(
    c: Contour,
    n: int,
    jab: bool,
    tritone: bool,
    d: Degrees,
    i: int,
    cur: int,
    x: u64,
) -> (int, int, u64) {
    let x1 = gen::rng_next(x);
    let x2 = gen::rng_next(x1);
    let x3 = gen::rng_next(x2);
    let jab_from = if c == Contour::PedalThenRun {
        if n < 4 {
            0
        } else {
            n - 4
        }
    } else {
        n
    };
    if i >= jab_from && jab {
        if tritone && i == n - 1 {
            (d.tritone, d.root, x)
        } else {
            let up = cur + (if lucky(x1, CHANCE_50) {
                1int
            } else {
                2
            });
            (up, up, x1)
        }
    } else if c == Contour::PedalJumps && i % 4 == 3 {
        if lucky(x1, CHANCE_50) {
            (
                d.drawn(x2) + (if lucky(x3, CHANCE_50) {
                    d.size
                } else {
                    0
                }),
                cur,
                x3,
            )
        } else {
            (d.root, cur, x1)
        }
    } else if c == Contour::Pedal && i == n - 1 {
        if lucky(x1, CHANCE_35) {
            (
                if tritone {
                    d.tritone
                } else {
                    d.second
                },
                cur,
                x1,
            )
        } else {
            (d.root, cur, x1)
        }
    } else {
        (d.root, cur, x)
    }
}

/// The first `k` pitches of a pedal line, where the jabs stand, and the
/// generator.
pub open spec fn pedal_line(
    c: Contour,
    n: int,
    jab: bool,
    tritone: bool,
    d: Degrees,
    x: u64,
    k: nat,
) -> (Seq<int>, int, u64)
    decreases k,
{
    if k == 0 {
        (Seq::empty(), d.root, x)
    } else {
        let (ps, cur, y) = pedal_line(c, n, jab, tritone, d, x, (k - 1) as nat);
        let (p, now, z) = pedal_hit(c, n, jab, tritone, d, k - 1, cur, y);
        (ps.push(p), now, z)
    }
}

/// Where a walk goes after a pitch: the next pitch, its direction and the
/// generator. Mostly a step, sometimes a turn, sometimes a leap to a chord
/// tone; it turns at the edges of its range.
pub open spec fn walk_on(d: Degrees, cur: int, dir: int, x: u64) -> (int, int, u64) {
    let x1 = gen::rng_next(x);
    let x2 = gen::rng_next(x1);
    if lucky(x1, CHANCE_20) {
        (d.drawn(x2), dir, x2)
    } else {
        let turned = if lucky(x2, CHANCE_25) {
            -dir
        } else {
            dir
        };
        let at = cur + turned;
        let (at1, dir1) = if at > d.root + 7 {
            (at - 2, -1)
        } else {
            (at, turned)
        };
        if at1 < d.root - 3 {
            (at1 + 2, 1, x2)
        } else {
            (at1, dir1, x2)
        }
    }
}

/// `m` pitches of a walk, each repeated `pair` times.
pub open spec fn walk_line(d: Degrees, m: nat, pair: nat, cur: int, dir: int, x: u64) -> (
    Seq<int>,
    u64,
)
    decreases m,
{
    if m == 0 || pair == 0 {
        (Seq::empty(), x)
    } else {
        let q = if pair < m {
            pair
        } else {
            m
        };
        let (next, turn, y) = walk_on(d, cur, dir, x);
        let (rest, z) = walk_line(d, (m - q) as nat, pair, next, turn, y);
        (Seq::new(q, |i: int| cur) + rest, z)
    }
}

/// The first `k` pitches of a run, the pitch after them and the generator.
pub open spec fn run_line(first: int, dir: int, x: u64, k: nat) -> (Seq<int>, int, u64)
    decreases k,
{
    if k == 0 {
        (Seq::empty(), first, x)
    } else {
        let (ps, cur, y) = run_line(first, dir, x, (k - 1) as nat);
        let y1 = gen::rng_next(y);
        if (k - 1) % 4 == 3 {
            (
                ps.push(cur),
                if lucky(y1, CHANCE_30) {
                    cur + dir - dir * 2
                } else {
                    cur + dir
                },
                y1,
            )
        } else {
            (ps.push(cur), cur + dir, y)
        }
    }
}

/// Where a melody goes on a hit at step `s`: a chord tone on most beats, a
/// step up or down elsewhere.
pub open spec fn melody_on(d: Degrees, s: int, cur: int, x: u64) -> (int, u64) {
    let x1 = gen::rng_next(x);
    let x2 = gen::rng_next(x1);
    if s % 4 == 0 {
        if lucky(x1, CHANCE_70) {
            (d.drawn(x2), x2)
        } else {
            (
                cur + (if lucky(x2, CHANCE_50) {
                    1int
                } else {
                    -1
                }),
                x2,
            )
        }
    } else {
        (
            cur + (if lucky(x1, CHANCE_50) {
                1int
            } else {
                -1
            }),
            x1,
        )
    }
}

/// The first `k` pitches of a melody, where it stands and the generator.
pub open spec fn melody_line(d: Degrees, hits: Seq<int>, bar: int, first: int, x: u64, k: nat) -> (
    Seq<int>,
    int,
    u64,
)
    decreases k,
{
    if k == 0 {
        (Seq::empty(), first, x)
    } else {
        let (ps, cur, y) = melody_line(d, hits, bar, first, x, (k - 1) as nat);
        let (at, z) = melody_on(d, hits[k - 1], cur, y);
        let now = if k == hits.len() && bar % 2 == 1 {
            d.root
        } else {
            at
        };
        (ps.push(chord::clamp(now, d.root - 3, d.root + 9)), now, z)
    }
}

/// The pitches of a line, one for each hit, and the generator.
pub open spec fn pitches(
    c: Contour,
    hits: Seq<int>,
    d: Degrees,
    pair: nat,
    motif: Seq<i32>,
    bar: int,
    x: u64,
) -> (Seq<int>, u64) {
    let n = hits.len();
    let x1 = gen::rng_next(x);
    let x2 = gen::rng_next(x1);
    match c {
        Contour::Pedal | Contour::PedalJumps | Contour::PedalThenRun => {
            let (ps, _, y) = pedal_line(
                c,
                n as int,
                lucky(x1, CHANCE_55),
                lucky(x2, CHANCE_25),
                d,
                x2,
                n,
            );
            (ps, y)
        },
        Contour::Walk => {
            let (ps, y) = walk_line(
                d,
                n,
                pair,
                d.drawn(x1),
                if lucky(x2, CHANCE_50) {
                    1
                } else {
                    -1
                },
                x2,
            );
            (
                if ps.len() > 0 && bar % 2 == 1 {
                    ps.update(ps.len() - 1, d.root)
                } else {
                    ps
                },
                y,
            )
        },
        Contour::Run => {
            let up = lucky(x1, CHANCE_50);
            let (ps, _, y) = run_line(
                if up {
                    d.root - 2
                } else {
                    d.root + 7
                },
                if up {
                    1
                } else {
                    -1
                },
                x1,
                n,
            );
            (ps, y)
        },
        Contour::Chord => (Seq::new(n, |i: int| d.tone((i + bar) % 3)), x),
        Contour::Melody => {
            let (ps, _, y) = melody_line(d, hits, bar, d.drawn(x1), x1, n);
            (ps, y)
        },
        Contour::Motif => (Seq::new(n, |i: int| d.root + motif[i % motif.len() as int]), x),
        Contour::Flat => (Seq::new(n, |i: int| d.root), x),
    }
}

/// What the first `k` hits play, and the generator: a hit after the first
/// may slide in.
pub open spec fn hit_notes(
    scale: Seq<u8>,
    key: u8,
    ps: Seq<int>,
    octave: int,
    fx: Option<(u8, u8)>,
    slide: i32,
    x: u64,
    k: nat,
) -> (Seq<(u8, Option<(u8, u8)>)>, u64)
    decreases k,
{
    if k == 0 {
        (Seq::empty(), x)
    } else {
        let (ns, y) = hit_notes(scale, key, ps, octave, fx, slide, x, (k - 1) as nat);
        let note = degree_note(scale, key, ps[k - 1], octave);
        let y1 = gen::rng_next(y);
        if k > 1 && slide > 0 && fx is None {
            (
                ns.push(
                    (
                        note,
                        if lucky(y1, odds::milli_threshold(slide as int) as u64) {
                            Some((SLIDE, 4u8))
                        } else {
                            None
                        },
                    ),
                ),
                y1,
            )
        } else {
            (ns.push((note, fx)), y)
        }
    }
}

/// The contour in force: the style's motif, where it is to be used.
pub open spec fn contour_for(r: RiffView, motif: Seq<i32>, use_motif: bool) -> Contour {
    if use_motif && motif.len() > 0 {
        Contour::Motif
    } else {
        contour_named(r.contour)
    }
}

/// A bar of the lead line, step by step, and the generator after it.
pub open spec fn lead_line(
    scale: Seq<u8>,
    key: u8,
    motif: Seq<i32>,
    r: RiffView,
    t: (int, int, int),
    bar: int,
    use_motif: bool,
    x: u64,
) -> (Seq<Option<(u8, Option<(u8, u8)>)>>, u64) {
    let hits = hits_below(r.rhythm, STEPS_PER_PHRASE as nat);
    let (ps, y) = pitches(
        contour_for(r, motif, use_motif),
        hits,
        degrees(scale, t),
        r.pair as nat,
        motif,
        bar,
        x,
    );
    let (ns, z) = hit_notes(scale, key, ps, r.octave as int, r.fx, r.slide, y, hits.len());
    (
        Seq::new(
            STEPS_PER_PHRASE as nat,
            |s: int|
                if r.rhythm[s] {
                    Some(ns[hits_below(r.rhythm, s as nat).len() as int])
                } else {
                    None
                },
        ),
        z,
    )
}

pub open spec fn ints(v: Seq<i64>) -> Seq<int> {
    v.map_values(|p: i64| p as int)
}

/// How large a pitch gets.
spec fn fair(p: int) -> bool {
    -0x3200_0000_0000_0000 < p < 0x3200_0000_0000_0000
}

spec fn all_fair(v: Seq<i64>) -> bool {
    forall|i: int| 0 <= i < v.len() ==> fair(#[trigger] v[i] as int)
}

fn push_pitch(v: &mut Vec<i64>, p: i64)
    requires
        fair(p as int),
        all_fair(old(v)@),
    ensures
        final(v)@ == old(v)@.push(p),
        ints(final(v)@) == ints(old(v)@).push(p as int),
        final(v)@.len() == old(v)@.len() + 1,
        all_fair(final(v)@),
{
    let ghost before = v@;
    v.push(p);
    assert(ints(v@) =~= ints(before).push(p as int));
}

fn find_hits(rhythm: &Vec<bool>) -> (r: Vec<usize>)
    requires
        rhythm@.len() >= STEPS_PER_PHRASE,
    ensures
        r@.map_values(|s: usize| s as int) == hits_below(rhythm@, STEPS_PER_PHRASE as nat),
        r@.len() <= STEPS_PER_PHRASE,
        forall|i: int| 0 <= i < r@.len() ==> #[trigger] r@[i] < STEPS_PER_PHRASE,
{
    let mut out: Vec<usize> = Vec::new();
    assert(out@.map_values(|s: usize| s as int) =~= Seq::<int>::empty());
    for s in 0..STEPS_PER_PHRASE
        invariant
            rhythm@.len() >= STEPS_PER_PHRASE,
            out@.map_values(|s: usize| s as int) == hits_below(rhythm@, s as nat),
            out@.len() <= s,
            forall|i: int| 0 <= i < out@.len() ==> #[trigger] out@[i] < STEPS_PER_PHRASE,
    {
        if rhythm[s] {
            let ghost before = out@;
            out.push(s);
            assert(out@.map_values(|s: usize| s as int) =~= before.map_values(
                |s: usize| s as int,
            ).push(s as int));
        }
    }
    out
}

fn pedal_hit_of(
    c: Contour,
    n: usize,
    jab: bool,
    tritone: bool,
    g: &Degs,
    i: usize,
    cur: i64,
    rng: &mut Rng,
    Ghost(d): Ghost<Degrees>,
) -> (r: (i64, i64))
    requires
        g.is(d),
        i < n <= STEPS_PER_PHRASE,
        g.root <= cur <= g.root + 2 * i,
    ensures
        (r.0 as int, r.1 as int, final(rng).state) == pedal_hit(
            c,
            n as int,
            jab,
            tritone,
            d,
            i as int,
            cur as int,
            old(rng).state,
        ),
        fair(r.0 as int),
        g.root <= r.1 <= g.root + 2 * (i + 1),
{
    let jab_from: usize = if c == Contour::PedalThenRun {
        if n < 4 {
            0
        } else {
            n - 4
        }
    } else {
        n
    };
    if i >= jab_from && jab {
        if tritone && i == n - 1 {
            (g.tritone, g.root)
        } else {
            let up: i64 = if rng.chance(CHANCE_50) {
                1
            } else {
                2
            };
            (cur + up, cur + up)
        }
    } else if c == Contour::PedalJumps && i % 4 == 3 {
        if rng.chance(CHANCE_50) {
            let t: i64 = g.draw(rng, Ghost(d));
            if rng.chance(CHANCE_50) {
                (t + g.size, cur)
            } else {
                (t, cur)
            }
        } else {
            (g.root, cur)
        }
    } else if c == Contour::Pedal && i == n - 1 {
        if rng.chance(CHANCE_35) {
            if tritone {
                (g.tritone, cur)
            } else {
                (g.second, cur)
            }
        } else {
            (g.root, cur)
        }
    } else {
        (g.root, cur)
    }
}

fn pedal_pitches(c: Contour, n: usize, g: &Degs, rng: &mut Rng, Ghost(d): Ghost<Degrees>) -> (r: Vec<
    i64,
>)
    requires
        g.is(d),
        n <= STEPS_PER_PHRASE,
        c == Contour::Pedal || c == Contour::PedalJumps || c == Contour::PedalThenRun,
    ensures
        ({
            let x1 = gen::rng_next(old(rng).state);
            let x2 = gen::rng_next(x1);
            let (ps, _, y) = pedal_line(
                c,
                n as int,
                lucky(x1, CHANCE_55),
                lucky(x2, CHANCE_25),
                d,
                x2,
                n as nat,
            );
            ints(r@) == ps && final(rng).state == y
        }),
        all_fair(r@),
        r@.len() == n,
{
    let jab: bool = rng.chance(CHANCE_55);
    let tritone: bool = rng.chance(CHANCE_25);
    let ghost x2 = rng.state;
    let mut cur: i64 = g.root;
    let mut out: Vec<i64> = Vec::new();
    assert(ints(out@) =~= Seq::<int>::empty());
    for i in 0..n
        invariant
            g.is(d),
            n <= STEPS_PER_PHRASE,
            (ints(out@), cur as int, rng.state) == pedal_line(
                c,
                n as int,
                jab,
                tritone,
                d,
                x2,
                i as nat,
            ),
            g.root <= cur <= g.root + 2 * i,
            all_fair(out@),
            out@.len() == i,
    {
        let (p, now): (i64, i64) = pedal_hit_of(c, n, jab, tritone, g, i, cur, rng, Ghost(d));
        cur = now;
        push_pitch(&mut out, p);
    }
    out
}

fn walk_pitches(n: usize, pair: usize, g: &Degs, rng: &mut Rng, Ghost(d): Ghost<Degrees>) -> (r: Vec<
    i64,
>)
    requires
        g.is(d),
        n <= STEPS_PER_PHRASE,
        pair >= 1,
    ensures
        ({
            let x1 = gen::rng_next(old(rng).state);
            let x2 = gen::rng_next(x1);
            let (ps, y) = walk_line(
                d,
                n as nat,
                pair as nat,
                d.drawn(x1),
                if lucky(x2, CHANCE_50) {
                    1
                } else {
                    -1
                },
                x2,
            );
            ints(r@) == ps && final(rng).state == y
        }),
        all_fair(r@),
        r@.len() == n,
{
    let mut cur: i64 = g.draw(rng, Ghost(d));
    let mut dir: i64 = if rng.chance(CHANCE_50) {
        1
    } else {
        -1
    };
    let ghost total = walk_line(d, n as nat, pair as nat, cur as int, dir as int, rng.state);
    let mut out: Vec<i64> = Vec::new();
    let mut left: usize = n;
    assert(ints(out@) + total.0 =~= total.0);
    while left > 0
        invariant
            g.is(d),
            pair >= 1,
            left <= n <= STEPS_PER_PHRASE,
            out@.len() == n - left,
            all_fair(out@),
            dir == 1 || dir == -1,
            -0x3100_0000_0000_0000 - 8 * (n - left) <= cur <= 0x3100_0000_0000_0000 + 8 * (n - left),
            ({
                let (ps, y) = walk_line(
                    d,
                    left as nat,
                    pair as nat,
                    cur as int,
                    dir as int,
                    rng.state,
                );
                ints(out@) + ps == total.0 && y == total.1
            }),
        decreases left,
    {
        let q: usize = if pair < left {
            pair
        } else {
            left
        };
        let ghost was = ints(out@);
        let ghost rest = walk_line(
            d,
            left as nat,
            pair as nat,
            cur as int,
            dir as int,
            rng.state,
        );
        let mut j: usize = 0;
        assert(ints(out@) =~= was + Seq::new(0, |i: int| cur as int));
        while j < q
            invariant
                j <= q,
                q <= left,
                out@.len() == n - left + j,
                all_fair(out@),
                fair(cur as int),
                ints(out@) == was + Seq::new(j as nat, |i: int| cur as int),
            decreases q - j,
        {
            push_pitch(&mut out, cur);
            j += 1;
            assert(ints(out@) =~= was + Seq::new(j as nat, |i: int| cur as int));
        }
        let ghost here = Seq::new(q as nat, |i: int| cur as int);
        let ghost (c0, d0, x0) = (cur as int, dir as int, rng.state);
        if rng.chance(CHANCE_20) {
            cur = g.draw(rng, Ghost(d));
        } else {
            if rng.chance(CHANCE_25) {
                dir = -dir;
            }
            cur = cur + dir;
            if cur > g.root + 7 {
                dir = -1;
                cur = cur - 2;
            }
            if cur < g.root - 3 {
                dir = 1;
                cur = cur + 2;
            }
        }
        left -= q;
        proof {
            assert((cur as int, dir as int, rng.state) == walk_on(d, c0, d0, x0));
            let tail = walk_line(
                d,
                left as nat,
                pair as nat,
                cur as int,
                dir as int,
                rng.state,
            );
            assert(rest.0 == here + tail.0);
            assert(was + (here + tail.0) =~= (was + here) + tail.0);
        }
    }
    assert(ints(out@) + Seq::<int>::empty() =~= ints(out@));
    out
}

fn run_pitches(n: usize, g: &Degs, rng: &mut Rng, Ghost(d): Ghost<Degrees>) -> (r: Vec<i64>)
    requires
        g.is(d),
        n <= STEPS_PER_PHRASE,
    ensures
        ({
            let x1 = gen::rng_next(old(rng).state);
            let up = lucky(x1, CHANCE_50);
            let (ps, _, y) = run_line(
                if up {
                    d.root - 2
                } else {
                    d.root + 7
                },
                if up {
                    1
                } else {
                    -1
                },
                x1,
                n as nat,
            );
            ints(r@) == ps && final(rng).state == y
        }),
        all_fair(r@),
        r@.len() == n,
{
    let up: bool = rng.chance(CHANCE_50);
    let ghost x1 = rng.state;
    let mut cur: i64 = if up {
        g.root - 2
    } else {
        g.root + 7
    };
    let dir: i64 = if up {
        1
    } else {
        -1
    };
    let ghost first = cur as int;
    let mut out: Vec<i64> = Vec::new();
    assert(ints(out@) =~= Seq::<int>::empty());
    for i in 0..n
        invariant
            g.is(d),
            n <= STEPS_PER_PHRASE,
            dir == 1 || dir == -1,
            (ints(out@), cur as int, rng.state) == run_line(first, dir as int, x1, i as nat),
            -0x3100_0000_0000_0000 - 2 - i <= cur <= 0x3100_0000_0000_0000 + 7 + i,
            all_fair(out@),
            out@.len() == i,
    {
        push_pitch(&mut out, cur);
        cur = cur + dir;
        if i % 4 == 3 {
            if rng.chance(CHANCE_30) {
                cur = cur - dir * 2;
            }
        }
    }
    out
}

fn melody_pitches(
    hits: &Vec<usize>,
    bar: usize,
    g: &Degs,
    rng: &mut Rng,
    Ghost(d): Ghost<Degrees>,
) -> (r: Vec<i64>)
    requires
        g.is(d),
        hits@.len() <= STEPS_PER_PHRASE,
    ensures
        ({
            let x1 = gen::rng_next(old(rng).state);
            let (ps, _, y) = melody_line(
                d,
                hits@.map_values(|s: usize| s as int),
                bar as int,
                d.drawn(x1),
                x1,
                hits@.len(),
            );
            ints(r@) == ps && final(rng).state == y
        }),
        all_fair(r@),
        r@.len() == hits@.len(),
{
    let ghost hs = hits@.map_values(|s: usize| s as int);
    let mut cur: i64 = g.draw(rng, Ghost(d));
    let ghost x1 = rng.state;
    let ghost first = cur as int;
    let mut out: Vec<i64> = Vec::new();
    assert(ints(out@) =~= Seq::<int>::empty());
    for i in 0..hits.len()
        invariant
            g.is(d),
            hits@.len() <= STEPS_PER_PHRASE,
            hs == hits@.map_values(|s: usize| s as int),
            (ints(out@), cur as int, rng.state) == melody_line(
                d,
                hs,
                bar as int,
                first,
                x1,
                i as nat,
            ),
            -0x3100_0000_0000_0000 - i <= cur <= 0x3100_0000_0000_0000 + i,
            all_fair(out@),
            out@.len() == i,
    {
        assert(hs[i as int] == hits@[i as int]);
        let s: usize = hits[i];
        let ghost y0 = rng.state;
        let mut leapt: bool = false;
        if s % 4 == 0 {
            if rng.chance(CHANCE_70) {
                leapt = true;
            }
        }
        if leapt {
            cur = g.draw(rng, Ghost(d));
        } else {
            if rng.chance(CHANCE_50) {
                cur = cur + 1;
            } else {
                cur = cur - 1;
            }
        }
        if i == hits.len() - 1 && bar % 2 == 1 {
            cur = g.root;
        }
        let p: i64 = if cur < g.root - 3 {
            g.root - 3
        } else if cur > g.root + 9 {
            g.root + 9
        } else {
            cur
        };
        push_pitch(&mut out, p);
    }
    out
}

fn steady_pitches(
    c: Contour,
    n: usize,
    bar: usize,
    motif: &Vec<i32>,
    g: &Degs,
    Ghost(d): Ghost<Degrees>,
) -> (r: Vec<i64>)
    requires
        g.is(d),
        n <= STEPS_PER_PHRASE,
        c == Contour::Motif ==> motif@.len() > 0 || n == 0,
    ensures
        ints(r@) == (match c {
            Contour::Chord => Seq::new(n as nat, |i: int| d.tone((i + bar) % 3)),
            Contour::Motif => Seq::new(
                n as nat,
                |i: int| d.root + motif@[i % motif@.len() as int],
            ),
            _ => Seq::new(n as nat, |i: int| d.root),
        }),
        all_fair(r@),
        r@.len() == n,
{
    let ghost want = match c {
        Contour::Chord => Seq::new(n as nat, |i: int| d.tone((i + bar) % 3)),
        Contour::Motif => Seq::new(n as nat, |i: int| d.root + motif@[i % motif@.len() as int]),
        _ => Seq::new(n as nat, |i: int| d.root),
    };
    let mut out: Vec<i64> = Vec::new();
    for i in 0..n
        invariant
            g.is(d),
            n <= STEPS_PER_PHRASE,
            c == Contour::Motif ==> motif@.len() > 0 || n == 0,
            want == (match c {
                Contour::Chord => Seq::new(n as nat, |i: int| d.tone((i + bar) % 3)),
                Contour::Motif => Seq::new(
                    n as nat,
                    |i: int| d.root + motif@[i % motif@.len() as int],
                ),
                _ => Seq::new(n as nat, |i: int| d.root),
            }),
            out@.len() == i,
            all_fair(out@),
            forall|j: int| 0 <= j < i ==> #[trigger] out@[j] == want[j],
    {
        let p: i64 = match c {
            Contour::Chord => {
                let k: u128 = (i as u128 + bar as u128) % 3;
                g.tone(k as usize, Ghost(d))
            },
            Contour::Motif => g.root + motif[i % motif.len()] as i64,
            _ => g.root,
        };
        assert(p == want[i as int]);
        push_pitch(&mut out, p);
    }
    assert(ints(out@) =~= want);
    out
}

/// What a riff must have for a bar to be made of it: an entry per step, at
/// least one hit per pitch, and a motif where it plays one.
pub open spec fn riff_ready(r: RiffView, motif: Seq<i32>) -> bool {
    &&& r.rhythm.len() >= STEPS_PER_PHRASE
    &&& r.pair >= 1
    &&& contour_named(r.contour) == Contour::Motif ==> motif.len() > 0 || hits_below(
        r.rhythm,
        STEPS_PER_PHRASE as nat,
    ).len() == 0
}

pub fn is_riff_ready(riff: &Riff, motif: &Vec<i32>) -> (r: bool)
    ensures
        r == riff_ready(riff@, motif@),
{
    if riff.rhythm.len() < STEPS_PER_PHRASE || riff.pair < 1 {
        return false;
    }
    if read_contour(riff.contour.as_str()) == Contour::Motif && motif.len() == 0 {
        let hits: Vec<usize> = find_hits(&riff.rhythm);
        assert(hits@.map_values(|s: usize| s as int).len() == hits@.len());
        return hits.len() == 0;
    }
    true
}

fn pitches_of(
    c: Contour,
    hits: &Vec<usize>,
    g: &Degs,
    pair: usize,
    motif: &Vec<i32>,
    bar: usize,
    rng: &mut Rng,
    Ghost(d): Ghost<Degrees>,
) -> (r: Vec<i64>)
    requires
        g.is(d),
        hits@.len() <= STEPS_PER_PHRASE,
        pair >= 1,
        c == Contour::Motif ==> motif@.len() > 0 || hits@.len() == 0,
    ensures
        (ints(r@), final(rng).state) == pitches(
            c,
            hits@.map_values(|s: usize| s as int),
            d,
            pair as nat,
            motif@,
            bar as int,
            old(rng).state,
        ),
        all_fair(r@),
        r@.len() == hits@.len(),
{
    let n: usize = hits.len();
    match c {
        Contour::Pedal | Contour::PedalJumps | Contour::PedalThenRun => {
            pedal_pitches(c, n, g, rng, Ghost(d))
        },
        Contour::Walk => {
            let mut v: Vec<i64> = walk_pitches(n, pair, g, rng, Ghost(d));
            if v.len() > 0 && bar % 2 == 1 {
                let ghost before = v@;
                let last: usize = v.len() - 1;
                v[last] = g.root;
                assert(ints(v@) =~= ints(before).update(last as int, d.root));
            }
            v
        },
        Contour::Run => run_pitches(n, g, rng, Ghost(d)),
        Contour::Melody => melody_pitches(hits, bar, g, rng, Ghost(d)),
        Contour::Chord => steady_pitches(c, n, bar, motif, g, Ghost(d)),
        Contour::Motif => steady_pitches(c, n, bar, motif, g, Ghost(d)),
        Contour::Flat => steady_pitches(c, n, bar, motif, g, Ghost(d)),
    }
}

fn notes_of(
    scale: &Vec<u8>,
    key: u8,
    ps: &Vec<i64>,
    octave: i32,
    fx: Option<(u8, u8)>,
    slide: i32,
    rng: &mut Rng,
) -> (r: Vec<(u8, Option<(u8, u8)>)>)
    requires
        0 < scale@.len() <= u32::MAX,
        all_fair(ps@),
    ensures
        (r@, final(rng).state) == hit_notes(
            scale@,
            key,
            ints(ps@),
            octave as int,
            fx,
            slide,
            old(rng).state,
            ps@.len(),
        ),
{
    let ghost x = rng.state;
    let mut out: Vec<(u8, Option<(u8, u8)>)> = Vec::new();
    for i in 0..ps.len()
        invariant
            0 < scale@.len() <= u32::MAX,
            all_fair(ps@),
            (out@, rng.state) == hit_notes(
                scale@,
                key,
                ints(ps@),
                octave as int,
                fx,
                slide,
                x,
                i as nat,
            ),
    {
        assert(ints(ps@)[i as int] == ps@[i as int]);
        let n: u8 = degree_note_of(scale, key, ps[i], octave);
        let mut f: Option<(u8, u8)> = fx;
        if i > 0 && slide > 0 && fx.is_none() {
            let p: u64 = odds::milli_odds(slide);
            if rng.chance(p) {
                f = Some((SLIDE, 4));
            }
        }
        out.push((n, f));
    }
    out
}

/// A bar of the lead line, step by step: the note and its effect.
pub fn lead_bar(
    scale: &Vec<u8>,
    key: u8,
    motif: &Vec<i32>,
    riff: &Riff,
    t: Triad,
    bar: usize,
    use_motif: bool,
    rng: &mut Rng,
) -> (r: Vec<Option<(u8, Option<(u8, u8)>)>>)
    requires
        0 < scale@.len() <= u32::MAX,
        t.small(),
        riff_ready(riff@, motif@),
    ensures
        (r@, final(rng).state) == lead_line(
            scale@,
            key,
            motif@,
            riff@,
            (t.root as int, t.third as int, t.fifth as int),
            bar as int,
            use_motif,
            old(rng).state,
        ),
        r@.len() == STEPS_PER_PHRASE,
{
    let hits: Vec<usize> = find_hits(&riff.rhythm);
    let g: Degs = degs_of(scale, t);
    let ghost d = degrees(scale@, (t.root as int, t.third as int, t.fifth as int));
    let c: Contour = if use_motif && motif.len() > 0 {
        Contour::Motif
    } else {
        read_contour(riff.contour.as_str())
    };
    let ghost hs = hits@.map_values(|s: usize| s as int);
    assert(hs.len() == hits@.len());
    let ps: Vec<i64> = pitches_of(c, &hits, &g, riff.pair, motif, bar, rng, Ghost(d));
    let ghost y = rng.state;
    let ns: Vec<(u8, Option<(u8, u8)>)> = notes_of(
        scale,
        key,
        &ps,
        riff.octave,
        riff.fx,
        riff.slide,
        rng,
    );
    proof {
        lemma_hit_notes_len(
            scale@,
            key,
            ints(ps@),
            riff.octave as int,
            riff.fx,
            riff.slide,
            y,
            ps@.len(),
        );
    }
    let ghost want = Seq::new(
        STEPS_PER_PHRASE as nat,
        |s: int|
            if riff@.rhythm[s] {
                Some(ns@[hits_below(riff@.rhythm, s as nat).len() as int])
            } else {
                None
            },
    );
    let mut out: Vec<Option<(u8, Option<(u8, u8)>)>> = Vec::new();
    let mut k: usize = 0;
    for s in 0..STEPS_PER_PHRASE
        invariant
            riff@.rhythm == riff.rhythm@,
            riff.rhythm@.len() >= STEPS_PER_PHRASE,
            ns@.len() == hits_below(riff.rhythm@, STEPS_PER_PHRASE as nat).len(),
            k == hits_below(riff.rhythm@, s as nat).len(),
            k <= s,
            out@.len() == s,
            want == Seq::new(
                STEPS_PER_PHRASE as nat,
                |s: int|
                    if riff@.rhythm[s] {
                        Some(ns@[hits_below(riff@.rhythm, s as nat).len() as int])
                    } else {
                        None
                    },
            ),
            forall|j: int| 0 <= j < s ==> #[trigger] out@[j] == want[j],
    {
        if riff.rhythm[s] {
            proof {
                lemma_hits_grow(riff.rhythm@, (s + 1) as nat, STEPS_PER_PHRASE as nat);
            }
            out.push(Some(ns[k]));
            k += 1;
        } else {
            out.push(None);
        }
        assert(out@[s as int] == want[s as int]);
    }
    assert(out@ =~= want);
    out
}

proof fn lemma_hits_grow(rhythm: Seq<bool>, a: nat, b: nat)
    requires
        a <= b,
    ensures
        hits_below(rhythm, a).len() <= hits_below(rhythm, b).len(),
    decreases b - a,
{
    if a < b {
        lemma_hits_grow(rhythm, a, (b - 1) as nat);
    }
}

proof fn lemma_hit_notes_len(
    scale: Seq<u8>,
    key: u8,
    ps: Seq<int>,
    octave: int,
    fx: Option<(u8, u8)>,
    slide: i32,
    x: u64,
    k: nat,
)
    ensures
        hit_notes(scale, key, ps, octave, fx, slide, x, k).0.len() == k,
    decreases k,
{
    if k > 0 {
        lemma_hit_notes_len(scale, key, ps, octave, fx, slide, x, (k - 1) as nat);
    }
}

// ---------------------------------------------------------------- harmony

/// How the second voice goes with the lead.
#[derive(Clone, Copy, Debug, PartialEq, Eq, Structural)]
pub enum Harmony {
    Third,
    Sixth,
    Fifth,
    Root,
    Unison,
    Silent,
}

pub open spec fn harmony_named(s: Seq<char>) -> Harmony {
    if s == "third"@ {
        Harmony::Third
    } else if s == "sixth"@ {
        Harmony::Sixth
    } else if s == "fifth"@ {
        Harmony::Fifth
    } else if s == "root"@ {
        Harmony::Root
    } else if s == "unison"@ {
        Harmony::Unison
    } else {
        Harmony::Silent
    }
}

pub fn read_harmony(s: &str) -> (r: Harmony)
    ensures
        r == harmony_named(s@),
{
    if text::same_str(s, "third") {
        Harmony::Third
    } else if text::same_str(s, "sixth") {
        Harmony::Sixth
    } else if text::same_str(s, "fifth") {
        Harmony::Fifth
    } else if text::same_str(s, "root") {
        Harmony::Root
    } else if text::same_str(s, "unison") {
        Harmony::Unison
    } else {
        Harmony::Silent
    }
}

/// The note a diatonic interval below a lead note.
pub open spec fn below_note(scale: Seq<u8>, key: u8, lead: u8, steps: int) -> u8 {
    let d = nearest_degree(scale, lead - (key + 12)) - steps;
    chord::clamp(
        key + 12 + (d / scale.len() as int) * 12 + scale[d % scale.len() as int],
        24,
        119,
    ) as u8
}

pub open spec fn harmony_note(
    scale: Seq<u8>,
    key: u8,
    h: Harmony,
    octave: int,
    t: (int, int, int),
    lead: u8,
) -> Option<u8> {
    let root = key + 12 * (octave + 1) + t.0;
    match h {
        Harmony::Third => Some(below_note(scale, key, lead, 2)),
        Harmony::Sixth => Some(below_note(scale, key, lead, 5)),
        Harmony::Fifth => Some(chord::clamp(root + t.2 - 12, 24, 119) as u8),
        Harmony::Root => Some(chord::clamp(root - 12, 24, 119) as u8),
        Harmony::Unison => Some(lead),
        Harmony::Silent => None,
    }
}

/// A bar of the second voice.
pub open spec fn harmony_line(
    scale: Seq<u8>,
    key: u8,
    r: RiffView,
    t: (int, int, int),
    lead: Seq<Option<(u8, Option<(u8, u8)>)>>,
) -> Seq<Option<(u8, Option<(u8, u8)>)>> {
    let h = harmony_named(r.harmony);
    Seq::new(
        STEPS_PER_PHRASE as nat,
        |s: int|
            match lead[s] {
                None => None,
                Some((ln, fx)) => match harmony_note(scale, key, h, r.octave as int, t, ln) {
                    None => None,
                    Some(n) => Some(
                        (
                            n,
                            if h == Harmony::Unison {
                                Some((SLIDE, 3u8))
                            } else {
                                fx
                            },
                        ),
                    ),
                },
            },
    )
}

fn clamp_note(n: i128) -> (r: u8)
    ensures
        r == chord::clamp(n as int, 24, 119),
{
    if n < 24 {
        24
    } else if n > 119 {
        119
    } else {
        n as u8
    }
}

fn below_note_of(scale: &Vec<u8>, key: u8, lead: u8, steps: i64) -> (r: u8)
    requires
        0 < scale@.len() <= u32::MAX,
        0 <= steps <= 5,
    ensures
        r == below_note(scale@, key, lead, steps as int),
{
    let rel: i64 = lead as i64 - (key as i64 + 12);
    let d: i64 = nearest_degree_of(scale, rel) - steps;
    let (q, m): (i64, i64) = floor_div(d, scale.len() as i64);
    clamp_note(key as i128 + 12 + q as i128 * 12 + scale[m as usize] as i128)
}

fn harmony_note_of(scale: &Vec<u8>, key: u8, h: Harmony, octave: i32, t: Triad, lead: u8) -> (r: Option<
    u8,
>)
    requires
        0 < scale@.len() <= u32::MAX,
        t.small(),
    ensures
        r == harmony_note(
            scale@,
            key,
            h,
            octave as int,
            (t.root as int, t.third as int, t.fifth as int),
            lead,
        ),
{
    let root: i128 = key as i128 + 12 * (octave as i128 + 1) + t.root as i128;
    match h {
        Harmony::Third => Some(below_note_of(scale, key, lead, 2)),
        Harmony::Sixth => Some(below_note_of(scale, key, lead, 5)),
        Harmony::Fifth => Some(clamp_note(root + t.fifth as i128 - 12)),
        Harmony::Root => Some(clamp_note(root - 12)),
        Harmony::Unison => Some(lead),
        Harmony::Silent => None,
    }
}

pub fn harmony_bar(
    scale: &Vec<u8>,
    key: u8,
    riff: &Riff,
    t: Triad,
    lead: &Vec<Option<(u8, Option<(u8, u8)>)>>,
) -> (r: Vec<Option<(u8, Option<(u8, u8)>)>>)
    requires
        0 < scale@.len() <= u32::MAX,
        t.small(),
        lead@.len() == STEPS_PER_PHRASE,
    ensures
        r@ == harmony_line(
            scale@,
            key,
            riff@,
            (t.root as int, t.third as int, t.fifth as int),
            lead@,
        ),
{
    let h: Harmony = read_harmony(riff.harmony.as_str());
    let ghost want = harmony_line(
        scale@,
        key,
        riff@,
        (t.root as int, t.third as int, t.fifth as int),
        lead@,
    );
    let mut out: Vec<Option<(u8, Option<(u8, u8)>)>> = Vec::new();
    for s in 0..STEPS_PER_PHRASE
        invariant
            0 < scale@.len() <= u32::MAX,
            t.small(),
            lead@.len() == STEPS_PER_PHRASE,
            h == harmony_named(riff@.harmony),
            want == harmony_line(
                scale@,
                key,
                riff@,
                (t.root as int, t.third as int, t.fifth as int),
                lead@,
            ),
            out@.len() == s,
            forall|j: int| 0 <= j < s ==> #[trigger] out@[j] == want[j],
    {
        let x: Option<(u8, Option<(u8, u8)>)> = match lead[s] {
            None => None,
            Some((ln, fx)) => match harmony_note_of(scale, key, h, riff.octave, t, ln) {
                None => None,
                Some(n) => {
                        if h == Harmony::Unison {
                        Some((n, Some((SLIDE, 3))))
                    } else {
                        Some((n, fx))
                    }
                },
            },
        };
        assert(x == want[s as int]);
        out.push(x);
    }
    assert(out@ =~= want);
    out
}

// ---------------------------------------------------------------- bass

/// A byte that wraps around.
pub open spec fn wrap8(n: int) -> u8 {
    (n % 256) as u8
}

/// The bass note of step `s`.
pub open spec fn bass_step(style: Seq<char>, root: u8, fifth: int, lead_hit: bool, s: int) -> Option<
    u8,
> {
    let up = wrap8(root + 12);
    let at_fifth = wrap8(root + fifth);
    let low = if root < 25 {
        24u8
    } else {
        (root - 1) as u8
    };
    if style == "octaves"@ {
        Some(
            if s % 2 == 0 {
                root
            } else {
                up
            },
        )
    } else if style == "gallop"@ {
        if s % 4 != 1 {
            Some(root)
        } else {
            None
        }
    } else if style == "roots"@ {
        if s % 2 == 0 {
            Some(root)
        } else {
            None
        }
    } else if style == "half"@ {
        if s % 8 == 0 {
            Some(root)
        } else {
            None
        }
    } else if style == "follow"@ {
        if lead_hit {
            Some(root)
        } else {
            None
        }
    } else if style == "walk"@ {
        // root, root, fifth, root, octave, root, fifth, approach
        if s % 2 == 1 {
            None
        } else if s == 4 || s == 12 {
            Some(at_fifth)
        } else if s == 8 {
            Some(up)
        } else if s == 14 {
            Some(low)
        } else {
            Some(root)
        }
    } else {
        if s == 0 {
            Some(root)
        } else {
            None
        }
    }
}

/// A bar of the bass.
pub open spec fn bass_line(
    key: u8,
    r: RiffView,
    t: (int, int, int),
    lead: Seq<Option<(u8, Option<(u8, u8)>)>>,
) -> Seq<Option<u8>> {
    let root = wrap8(key + 36 + t.0);
    Seq::new(
        STEPS_PER_PHRASE as nat,
        |s: int| bass_step(r.bass, root, t.2, lead[s] is Some, s),
    )
}

fn wrap8_of(n: i64) -> (r: u8)
    requires
        n > i64::MIN,
    ensures
        r == wrap8(n as int),
{
    let (_, m): (i64, i64) = floor_div(n, 256);
    m as u8
}

fn bass_step_of(style: &str, root: u8, fifth: i64, lead_hit: bool, s: usize) -> (r: Option<u8>)
    requires
        -1000 <= fifth <= 1000,
        s < STEPS_PER_PHRASE,
    ensures
        r == bass_step(style@, root, fifth as int, lead_hit, s as int),
{
    let up: u8 = wrap8_of(root as i64 + 12);
    let at_fifth: u8 = wrap8_of(root as i64 + fifth);
    let low: u8 = if root < 25 {
        24
    } else {
        root - 1
    };
    if text::same_str(style, "octaves") {
        Some(
            if s % 2 == 0 {
                root
            } else {
                up
            },
        )
    } else if text::same_str(style, "gallop") {
        if s % 4 != 1 {
            Some(root)
        } else {
            None
        }
    } else if text::same_str(style, "roots") {
        if s % 2 == 0 {
            Some(root)
        } else {
            None
        }
    } else if text::same_str(style, "half") {
        if s % 8 == 0 {
            Some(root)
        } else {
            None
        }
    } else if text::same_str(style, "follow") {
        if lead_hit {
            Some(root)
        } else {
            None
        }
    } else if text::same_str(style, "walk") {
        if s % 2 == 1 {
            None
        } else if s == 4 || s == 12 {
            Some(at_fifth)
        } else if s == 8 {
            Some(up)
        } else if s == 14 {
            Some(low)
        } else {
            Some(root)
        }
    } else {
        if s == 0 {
            Some(root)
        } else {
            None
        }
    }
}

pub fn bass_bar(key: u8, riff: &Riff, t: Triad, lead: &Vec<Option<(u8, Option<(u8, u8)>)>>) -> (r: Vec<
    Option<u8>,
>)
    requires
        t.small(),
        lead@.len() == STEPS_PER_PHRASE,
    ensures
        r@ == bass_line(key, riff@, (t.root as int, t.third as int, t.fifth as int), lead@),
{
    let root: u8 = wrap8_of(key as i64 + 36 + t.root);
    let ghost want = bass_line(
        key,
        riff@,
        (t.root as int, t.third as int, t.fifth as int),
        lead@,
    );
    let mut out: Vec<Option<u8>> = Vec::new();
    for s in 0..STEPS_PER_PHRASE
        invariant
            t.small(),
            lead@.len() == STEPS_PER_PHRASE,
            root == wrap8(key + 36 + t.root),
            want == bass_line(
                key,
                riff@,
                (t.root as int, t.third as int, t.fifth as int),
                lead@,
            ),
            out@.len() == s,
            forall|j: int| 0 <= j < s ==> #[trigger] out@[j] == want[j],
    {
        let x: Option<u8> = bass_step_of(
            riff.bass.as_str(),
            root,
            t.fifth,
            lead[s].is_some(),
            s,
        );
        assert(x == want[s as int]);
        out.push(x);
    }
    assert(out@ =~= want);
    out
}

// ---------------------------------------------------------------- drums

pub open spec fn noise_hit(st: StyleView, token: char) -> Option<(u8, u8)> {
    if token == 'h' {
        Some(st.hat)
    } else if token == 'o' {
        Some(st.open_hat)
    } else if token == 'c' {
        Some(st.crash)
    } else {
        None
    }
}

/// The noise channel of a bar of drums.
pub open spec fn noise_line(st: StyleView, d: DrumsView, crash: bool) -> Seq<Option<(u8, u8)>> {
    Seq::new(
        STEPS_PER_PHRASE as nat,
        |s: int|
            if crash && s == 0 {
                Some(st.crash)
            } else {
                noise_hit(st, d.noi[s])
            },
    )
}

/// The sample channel of a bar of drums, and the generator after it. A fill
/// spreads snares over the second half and ends on one.
pub open spec fn sample_line(st: StyleView, d: DrumsView, fill: bool, x: u64) -> (
    Seq<Option<u8>>,
    u64,
) {
    let x1 = gen::rng_next(x);
    let x2 = gen::rng_next(x1);
    let mask = gen::euclid_pattern(
        (3 + gen::rng_range(x1, 0, 3)) as nat,
        8,
        gen::rng_range(x2, 0, 8) as nat,
    );
    let snare = match style::token_note(st.samples, 's') {
        Some(n) => n,
        None => 61,
    };
    (
        Seq::new(
            STEPS_PER_PHRASE as nat,
            |s: int|
                if fill && (s == 15 || (s >= 8 && mask[s - 8])) {
                    Some(snare)
                } else if d.dpcm[s] == '.' {
                    None
                } else {
                    style::token_note(st.samples, d.dpcm[s])
                },
        ),
        if fill {
            x2
        } else {
            x
        },
    )
}

/// One bar of drums: noise notes with their instruments, and sample notes.
pub fn drum_cells(style: &Style, d: &Drums, fill: bool, crash: bool, rng: &mut Rng) -> (r: (
    Vec<Option<(u8, u8)>>,
    Vec<Option<u8>>,
))
    requires
        style.samples@.len() <= 196,
        d.noi@.len() >= STEPS_PER_PHRASE,
        d.dpcm@.len() >= STEPS_PER_PHRASE,
    ensures
        r.0@ == noise_line(style@, d@, crash),
        (r.1@, final(rng).state) == sample_line(style@, d@, fill, old(rng).state),
{
    let ghost x = rng.state;
    let mut mask: Vec<bool> = Vec::new();
    let mut snare: u8 = 61;
    if fill {
        let k: usize = 3 + rng.range(0, 3) as usize;
        let off: usize = rng.range(0, 8) as usize;
        mask = gen::euclid_mask(k, 8, off);
        if let Some(n) = style.dpcm_note('s') {
            snare = n;
        }
    }
    let ghost noise = noise_line(style@, d@, crash);
    let ghost (samples, y) = sample_line(style@, d@, fill, x);
    let mut noi: Vec<Option<(u8, u8)>> = Vec::new();
    let mut dpcm: Vec<Option<u8>> = Vec::new();
    for s in 0..STEPS_PER_PHRASE
        invariant
            style.samples@.len() <= 196,
            d.noi@.len() >= STEPS_PER_PHRASE,
            d.dpcm@.len() >= STEPS_PER_PHRASE,
            noise == noise_line(style@, d@, crash),
            samples == sample_line(style@, d@, fill, x).0,
            fill ==> mask@.len() == 8,
            fill ==> forall|j: int|
                8 <= j < 16 ==> #[trigger] samples[j] == (if j == 15 || mask@[j - 8] {
                    Some(snare)
                } else if d.dpcm@[j] == '.' {
                    None
                } else {
                    style::token_note(style@.samples, d.dpcm@[j])
                }),
            noi@.len() == s,
            dpcm@.len() == s,
            forall|j: int| 0 <= j < s ==> #[trigger] noi@[j] == noise[j],
            forall|j: int| 0 <= j < s ==> #[trigger] dpcm@[j] == samples[j],
    {
        let c: char = d.noi[s];
        let a: Option<(u8, u8)> = if crash && s == 0 {
            Some(style.crash)
        } else if c == 'h' {
            Some(style.hat)
        } else if c == 'o' {
            Some(style.open_hat)
        } else if c == 'c' {
            Some(style.crash)
        } else {
            None
        };
        assert(a == noise[s as int]);
        noi.push(a);
        let struck: bool = fill && s >= 8 && (s == 15 || mask[s - 8]);
        let b: Option<u8> = if struck {
            Some(snare)
        } else if d.dpcm[s] == '.' {
            None
        } else {
            style.dpcm_note(d.dpcm[s])
        };
        assert(b == samples[s as int]);
        dpcm.push(b);
    }
    assert(noi@ =~= noise);
    assert(dpcm@ =~= samples);
    (noi, dpcm)
}

} // verus!
