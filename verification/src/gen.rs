//! Algorithmic generators.
//!
//! Each generator writes whole channels of the current phrase. Randomness
//! comes from a small xorshift generator, so results are determined by the
//! seed.

use vstd::prelude::*;

use crate::text;

pub mod automata;
pub mod chord;
pub mod commands;
pub mod dispatch;
pub mod harmony;
pub mod musical;
pub mod odds;
pub mod patterns;

pub use self::automata::{
    cellular, cellular_rows, lsystem, lsystem_expand, parse_note_map, parse_note_name, parse_rules,
};
pub use self::chord::{
    parse_chord_symbol, parse_key_spec, parse_progression, progression_preset, Chord,
};
pub use self::dispatch::dispatch;
pub use self::patterns::{
    arp, bassline, chord_prog, drum_preset, drums, euclid, four_on_floor, random_in_scale,
    DrumPreset,
};

verus! {

// ---------------------------------------------------------------- random numbers

/// A xorshift generator.
pub struct Rng {
    pub state: u64,
}

/// The state that follows `x`.
pub open spec fn rng_next(x: u64) -> u64 {
    let a = x ^ (x << 13u64);
    let b = a ^ (a >> 7u64);
    b ^ (b << 17u64)
}

/// What a draw returns, given the state after it.
pub open spec fn rng_value(x: u64) -> u32 {
    (x >> 32u64) as u32
}

/// The state that a seed starts from; zero would never leave zero.
pub open spec fn rng_seed(seed: u64) -> u64 {
    if seed == 0 {
        0xACE1_DEAD_BEEF_CAFE
    } else {
        seed
    }
}

/// A draw between `lo` and `hi`, given the state after it.
pub open spec fn rng_range(x: u64, lo: u32, hi: u32) -> u32 {
    (lo + rng_value(x) % ((hi - lo) as u32)) as u32
}

impl Rng {
    pub fn new(seed: u64) -> (r: Rng)
        ensures
            r.state == rng_seed(seed),
    {
        Rng {
            state: if seed == 0 {
                0xACE1_DEAD_BEEF_CAFE
            } else {
                seed
            },
        }
    }

    pub fn next_u32(&mut self) -> (r: u32)
        ensures
            final(self).state == rng_next(old(self).state),
            r == rng_value(final(self).state),
    {
        let mut x: u64 = self.state;
        x = x ^ (x << 13u64);
        x = x ^ (x >> 7u64);
        x = x ^ (x << 17u64);
        self.state = x;
        let top: u64 = x >> 32u64;
        top as u32
    }

    /// A draw from `lo` up to but not including `hi`.
    pub fn range(&mut self, lo: u32, hi: u32) -> (r: u32)
        requires
            lo < hi,
        ensures
            final(self).state == rng_next(old(self).state),
            r == rng_range(final(self).state, lo, hi),
            lo <= r < hi,
    {
        let v: u32 = self.next_u32();
        lo + v % (hi - lo)
    }

    /// An event of probability `p / 2^32`. The draw is taken with the 24
    /// bits of precision that a single-precision number has.
    pub fn chance(&mut self, p: u64) -> (r: bool)
        ensures
            final(self).state == rng_next(old(self).state),
            r == odds::falls_below(rng_value(final(self).state), p),
    {
        let v: u32 = self.next_u32();
        odds::round24_of(v) < p
    }
}

/// The state never becomes zero, so the generator never gets stuck.
pub proof fn law_rng_never_zero(x: u64)
    requires
        x != 0,
    ensures
        rng_next(x) != 0,
{
    let a = x ^ (x << 13u64);
    let b = a ^ (a >> 7u64);
    assert(x != 0 ==> (x ^ (x << 13u64)) != 0) by (bit_vector);
    assert(a != 0 ==> (a ^ (a >> 7u64)) != 0) by (bit_vector);
    assert(b != 0 ==> (b ^ (b << 17u64)) != 0) by (bit_vector);
}

// ---------------------------------------------------------------- channels

#[derive(Clone, Copy, Debug, PartialEq, Eq, Structural)]
pub enum Channel {
    Pu1,
    Pu2,
    Tri,
    Noi,
    Dpcm,
}

pub open spec fn channel_named(s: Seq<char>) -> Option<Channel> {
    let l = text::lower(s);
    if l == "pu1"@ || l == "1"@ {
        Some(Channel::Pu1)
    } else if l == "pu2"@ || l == "2"@ {
        Some(Channel::Pu2)
    } else if l == "tri"@ || l == "3"@ {
        Some(Channel::Tri)
    } else if l == "noi"@ || l == "4"@ {
        Some(Channel::Noi)
    } else if l == "dpcm"@ || l == "dpc"@ || l == "5"@ {
        Some(Channel::Dpcm)
    } else {
        None
    }
}

pub open spec fn channel_index(c: Channel) -> usize {
    match c {
        Channel::Pu1 => 0,
        Channel::Pu2 => 1,
        Channel::Tri => 2,
        Channel::Noi => 3,
        Channel::Dpcm => 4,
    }
}

pub open spec fn channel_label(c: Channel) -> Seq<char> {
    match c {
        Channel::Pu1 => "PU1"@,
        Channel::Pu2 => "PU2"@,
        Channel::Tri => "TRI"@,
        Channel::Noi => "NOI"@,
        Channel::Dpcm => "DPCM"@,
    }
}

impl Channel {
    pub fn parse(s: &str) -> (r: Option<Channel>)
        ensures
            r == channel_named(s@),
    {
        let v: Vec<char> = text::chars_of(s);
        read_channel(v.as_slice())
    }

    pub fn index(self) -> (r: usize)
        ensures
            r == channel_index(self),
            r < 5,
    {
        match self {
            Channel::Pu1 => 0,
            Channel::Pu2 => 1,
            Channel::Tri => 2,
            Channel::Noi => 3,
            Channel::Dpcm => 4,
        }
    }

    pub fn label(self) -> (r: &'static str)
        ensures
            r@ == channel_label(self),
    {
        match self {
            Channel::Pu1 => "PU1",
            Channel::Pu2 => "PU2",
            Channel::Tri => "TRI",
            Channel::Noi => "NOI",
            Channel::Dpcm => "DPCM",
        }
    }
}

pub fn read_channel(s: &[char]) -> (r: Option<Channel>)
    ensures
        r == channel_named(s@),
{
    let l: Vec<char> = text::lower_of(s);
    let t: &[char] = l.as_slice();
    if text::is_lit(t, "pu1") || text::is_lit(t, "1") {
        Some(Channel::Pu1)
    } else if text::is_lit(t, "pu2") || text::is_lit(t, "2") {
        Some(Channel::Pu2)
    } else if text::is_lit(t, "tri") || text::is_lit(t, "3") {
        Some(Channel::Tri)
    } else if text::is_lit(t, "noi") || text::is_lit(t, "4") {
        Some(Channel::Noi)
    } else if text::is_lit(t, "dpcm") || text::is_lit(t, "dpc") || text::is_lit(t, "5") {
        Some(Channel::Dpcm)
    } else {
        None
    }
}

/// A channel's label names the channel.
pub proof fn law_label_names_channel(c: Channel)
    ensures
        channel_named(channel_label(c)) == Some(c),
{
    reveal_strlit("PU1");
    reveal_strlit("PU2");
    reveal_strlit("TRI");
    reveal_strlit("NOI");
    reveal_strlit("DPCM");
    reveal_strlit("pu1");
    reveal_strlit("pu2");
    reveal_strlit("tri");
    reveal_strlit("noi");
    reveal_strlit("dpcm");
    reveal_strlit("dpc");
    reveal_strlit("1");
    reveal_strlit("2");
    reveal_strlit("3");
    reveal_strlit("4");
    reveal_strlit("5");
    let l = text::lower(channel_label(c));
    match c {
        Channel::Pu1 => {
            assert(l =~= "pu1"@);
        },
        Channel::Pu2 => {
            assert(l =~= "pu2"@);
            assert(l[2] == '2' && "pu1"@[2] == '1');
        },
        Channel::Tri => {
            assert(l =~= "tri"@);
            assert(l[0] == 't' && "pu1"@[0] == 'p' && "pu2"@[0] == 'p');
        },
        Channel::Noi => {
            assert(l =~= "noi"@);
            assert(l[0] == 'n' && "pu1"@[0] == 'p' && "pu2"@[0] == 'p' && "tri"@[0] == 't');
        },
        Channel::Dpcm => {
            assert(l =~= "dpcm"@);
        },
    }
}

// ---------------------------------------------------------------- Euclidean rhythms

/// Whether step `i` of `n` carries one of `k` evenly spread hits: the running
/// total of `k` per step passes a multiple of `n`.
pub open spec fn even_hit(i: int, k: int, n: int) -> bool {
    (i + 1) * k / n > i * k / n
}

/// `k` hits spread over `n` steps, turned right by `offset`.
pub open spec fn euclid_pattern(k: nat, n: nat, offset: nat) -> Seq<bool> {
    let width: nat = if n == 0 {
        1
    } else {
        n
    };
    let hits: nat = if k < width {
        k
    } else {
        width
    };
    Seq::new(
        width,
        |j: int| even_hit((j + width - offset % width) % width as int, hits as int, width as int),
    )
}

proof fn lemma_euclid_step(i: int, k: int, n: int)
    requires
        n > 0,
        0 <= k <= n,
        i >= 0,
    ensures
        ({
            let acc = (i * k) % n;
            if acc + k >= n {
                even_hit(i, k, n) && ((i + 1) * k) % n == acc + k - n && (i + 1) * k / n == i * k
                    / n + 1
            } else {
                !even_hit(i, k, n) && ((i + 1) * k) % n == acc + k && (i + 1) * k / n == i * k / n
            }
        }),
{
    let x = i * k;
    let q = x / n;
    let acc = x % n;
    assert((i + 1) * k == x + k) by (nonlinear_arith)
        requires
            x == i * k,
    ;
    assert(x == q * n + acc && 0 <= acc < n) by (nonlinear_arith)
        requires
            n > 0,
            q == x / n,
            acc == x % n,
    ;
    if acc + k >= n {
        assert((x + k) / n == q + 1 && (x + k) % n == acc + k - n) by (nonlinear_arith)
            requires
                n > 0,
                x == q * n + acc,
                0 <= acc + k - n < n,
        ;
    } else {
        assert((x + k) / n == q && (x + k) % n == acc + k) by (nonlinear_arith)
            requires
                n > 0,
                x == q * n + acc,
                0 <= acc + k < n,
        ;
    }
}

/// `k` hits distributed as evenly as possible across `n` steps, then rotated
/// right by `offset`.
pub fn euclid_mask(k: usize, n: usize, offset: usize) -> (r: Vec<bool>)
    ensures
        r@ == euclid_pattern(k as nat, n as nat, offset as nat),
{
    let width: usize = if n == 0 {
        1
    } else {
        n
    };
    let hits: usize = if k < width {
        k
    } else {
        width
    };
    let mut flat: Vec<bool> = Vec::new();
    let mut acc: usize = 0;
    let mut i: usize = 0;
    assert(0int * hits % (width as int) == 0) by (nonlinear_arith)
        requires
            width > 0,
    ;
    while i < width
        invariant
            i <= width,
            0 < width,
            hits <= width,
            acc < width,
            acc == (i * hits) % (width as int),
            flat@ == Seq::new(i as nat, |j: int| even_hit(j, hits as int, width as int)),
        decreases width - i,
    {
        proof {
            lemma_euclid_step(i as int, hits as int, width as int);
        }
        let hit: bool = acc >= width - hits;
        if hit {
            acc = acc - (width - hits);
        } else {
            acc = acc + hits;
        }
        flat.push(hit);
        i += 1;
        assert(flat@ =~= Seq::new(i as nat, |j: int| even_hit(j, hits as int, width as int)));
    }
    let off: usize = offset % width;
    let mut out: Vec<bool> = Vec::new();
    let mut j: usize = 0;
    while j < width
        invariant
            j <= width,
            0 < width,
            off == offset % width,
            off < width,
            flat@ == Seq::new(width as nat, |j: int| even_hit(j, hits as int, width as int)),
            out@ == Seq::new(
                j as nat,
                |j: int| even_hit((j + width - off) % width as int, hits as int, width as int),
            ),
        decreases width - j,
    {
        let at: usize = if j >= off {
            j - off
        } else {
            width - (off - j)
        };
        assert(at == (j + width - off) % (width as int)) by {
            if j >= off {
                assert((j + width - off) % (width as int) == j - off) by (nonlinear_arith)
                    requires
                        0 < width,
                        off <= j < width,
                ;
            } else {
                assert((j + width - off) % (width as int) == j + width - off) by (nonlinear_arith)
                    requires
                        0 < width,
                        j < off < width,
                ;
            }
        }
        out.push(flat[at]);
        j += 1;
        assert(out@ =~= Seq::new(
            j as nat,
            |j: int| even_hit((j + width - off) % width as int, hits as int, width as int),
        ));
    }
    assert(out@ =~= euclid_pattern(k as nat, n as nat, offset as nat));
    out
}

// ---------------------------------------------------------------- evenness

/// Hits among `w` steps from step `a` on, going round.
pub open spec fn window_hits(m: Seq<bool>, a: nat, w: nat) -> nat
    decreases w,
{
    if w == 0 {
        0
    } else {
        window_hits(m, a, (w - 1) as nat) + (if m[(a + w - 1) % (m.len() as int)] {
            1nat
        } else {
            0nat
        })
    }
}

proof fn lemma_even_hit_round(i: int, k: int, n: int)
    requires
        n > 0,
        i >= 0,
    ensures
        even_hit(i % n, k, n) == even_hit(i, k, n),
{
    let q = i / n;
    let r = i % n;
    assert(i == q * n + r) by (nonlinear_arith)
        requires
            n > 0,
            q == i / n,
            r == i % n,
    ;
    assert(i * k == r * k + (q * k) * n && (i + 1) * k == (r + 1) * k + (q * k) * n)
        by (nonlinear_arith)
        requires
            i == q * n + r,
    ;
    vstd::arithmetic::div_mod::lemma_hoist_over_denominator(r * k, q * k, n as nat);
    vstd::arithmetic::div_mod::lemma_hoist_over_denominator((r + 1) * k, q * k, n as nat);
}

/// The hits of a window are those that the running total passes.
proof fn lemma_window(k: nat, n: nat, offset: nat, a: nat, w: nat)
    requires
        0 < n,
        k <= n,
    ensures
        ({
            let from = a + n - offset % n;
            window_hits(euclid_pattern(k, n, offset), a, w) == (from + w) * k / n as int - from * k
                / n as int
        }),
    decreases w,
{
    let from = a + n - offset % n;
    let m = euclid_pattern(k, n, offset);
    if w > 0 {
        lemma_window(k, n, offset, a, (w - 1) as nat);
        let i = a + w - 1;
        let q = i / n as int;
        let r = i % n as int;
        let c = n - offset % n;
        assert(i == n * q + r) by (nonlinear_arith)
            requires
                n > 0,
                q == i / n as int,
                r == i % n as int,
        ;
        vstd::arithmetic::div_mod::lemma_mod_multiples_vanish(q, r + c, n as int);
        assert((i + c) % (n as int) == (r + c) % (n as int));
        assert(m[r] == even_hit((r + n - offset % n) % n as int, k as int, n as int));
        lemma_even_hit_round(i + c, k as int, n as int);
        lemma_euclid_step(i + c, k as int, n as int);
    }
}

proof fn lemma_quotient_of_sum(x: int, y: int, n: int)
    requires
        n > 0,
    ensures
        y / n <= (x + y) / n - x / n <= y / n + 1,
{
    let q = x / n;
    let p = y / n;
    let t = x % n + y % n;
    assert(x + y == t + (q + p) * n && 0 <= t < 2 * n) by (nonlinear_arith)
        requires
            n > 0,
            q == x / n,
            p == y / n,
            t == x % n + y % n,
    ;
    vstd::arithmetic::div_mod::lemma_hoist_over_denominator(t, q + p, n as nat);
    if t < n {
        vstd::arithmetic::div_mod::lemma_basic_div(t, n);
    } else {
        vstd::arithmetic::div_mod::lemma_basic_div(t - n, n);
        vstd::arithmetic::div_mod::lemma_hoist_over_denominator(t - n, 1, n as nat);
    }
}

/// Hits are spread as evenly as they can be: two windows of one width, at
/// any two places round the pattern, differ by one hit at most.
pub proof fn law_euclid_is_even(k: nat, n: nat, offset: nat, a: nat, b: nat, w: nat)
    requires
        0 < n,
    ensures
        window_hits(euclid_pattern(k, n, offset), a, w) <= window_hits(
            euclid_pattern(k, n, offset),
            b,
            w,
        ) + 1,
{
    let h: nat = if k < n {
        k
    } else {
        n
    };
    assert(euclid_pattern(k, n, offset) == euclid_pattern(h, n, offset));
    lemma_window(h, n, offset, a, w);
    lemma_window(h, n, offset, b, w);
    let x = a + n - offset % n;
    let y = b + n - offset % n;
    assert((x + w) * h == x * h + w * h && (y + w) * h == y * h + w * h) by (nonlinear_arith);
    lemma_quotient_of_sum(x * h, (w * h) as int, n as int);
    lemma_quotient_of_sum(y * h, (w * h) as int, n as int);
}

/// An offset turns the pattern: step `i` without one is step `i + offset`
/// with it.
pub proof fn law_euclid_turns(k: nat, n: nat, offset: nat, i: nat)
    requires
        i < n,
    ensures
        euclid_pattern(k, n, offset)[((i + offset) % n) as int] == euclid_pattern(k, n, 0)[i as int],
{
    let w = n as int;
    let j = (i + offset) as int % w;
    let q = (i + offset) as int / w;
    let p = offset as int / w;
    let o = offset as int % w;
    assert(j + w - o == w * (p - q + 1) + i) by (nonlinear_arith)
        requires
            w > 0,
            j == (i + offset) as int % w,
            q == (i + offset) as int / w,
            p == offset as int / w,
            o == offset as int % w,
    ;
    vstd::arithmetic::div_mod::lemma_mod_multiples_vanish(p - q + 1, i as int, w);
    assert((j + w - o) % w == i as int % w);
    vstd::arithmetic::div_mod::lemma_mod_multiples_vanish(1, i as int, w);
    assert(0nat % n == 0);
}

/// How many of the steps are hits.
pub open spec fn count_hits(s: Seq<bool>) -> nat
    decreases s.len(),
{
    if s.len() == 0 {
        0
    } else {
        count_hits(s.drop_last()) + (if s.last() {
            1nat
        } else {
            0nat
        })
    }
}

proof fn lemma_count_add(a: Seq<bool>, b: Seq<bool>)
    ensures
        count_hits(a + b) == count_hits(a) + count_hits(b),
    decreases b.len(),
{
    if b.len() == 0 {
        assert(a + b =~= a);
    } else {
        assert((a + b).drop_last() =~= a + b.drop_last());
        lemma_count_add(a, b.drop_last());
    }
}

proof fn lemma_count_flat(k: int, n: int, m: nat)
    requires
        n > 0,
        0 <= k <= n,
        m <= n,
    ensures
        count_hits(Seq::new(m, |j: int| even_hit(j, k, n))) == m * k / n,
    decreases m,
{
    let s = Seq::new(m, |j: int| even_hit(j, k, n));
    if m == 0 {
        assert(0 * k / n == 0) by (nonlinear_arith)
            requires
                n > 0,
        ;
    } else {
        lemma_count_flat(k, n, (m - 1) as nat);
        assert(s.drop_last() =~= Seq::new((m - 1) as nat, |j: int| even_hit(j, k, n)));
        lemma_euclid_step(m - 1, k, n);
    }
}

/// A Euclidean rhythm has exactly the number of hits asked for, as far as
/// there are steps to hold them.
pub proof fn law_euclid_hit_count(k: nat, n: nat, offset: nat)
    requires
        n > 0,
    ensures
        count_hits(euclid_pattern(k, n, offset)) == (if k < n {
            k
        } else {
            n
        }),
{
    let hits = if k < n {
        k as int
    } else {
        n as int
    };
    let w = n as int;
    let flat = Seq::new(n, |j: int| even_hit(j, hits, w));
    let off = (offset % n) as int;
    assert(0 <= off < w) by (nonlinear_arith)
        requires
            w > 0,
            off == offset as int % w,
    ;
    let p = euclid_pattern(k, n, offset);
    let a = flat.skip(w - off);
    let b = flat.take(w - off);
    assert forall|j: int| 0 <= j < n implies p[j] == (a + b)[j] by {
        if j < off {
            assert((j + w - off) % w == j + w - off) by (nonlinear_arith)
                requires
                    0 <= j < off < w,
            ;
        } else {
            assert((j + w - off) % w == j - off) by (nonlinear_arith)
                requires
                    0 <= off <= j < w,
            ;
        }
    }
    assert(p =~= a + b);
    lemma_count_add(a, b);
    lemma_count_add(b, a);
    assert(b + a =~= flat);
    lemma_count_flat(hits, w, n);
    assert(w * hits / w == hits) by (nonlinear_arith)
        requires
            w > 0,
    ;
}

// ---------------------------------------------------------------- scales and keys

#[derive(Clone, Copy, Debug, PartialEq, Eq, Structural)]
pub enum Mode {
    Major,
    Minor,
    Dorian,
    Phrygian,
    Lydian,
    Mixolydian,
    Locrian,
    HarmonicMinor,
    PentMajor,
    PentMinor,
    Blues,
}

pub open spec fn mode_named(s: Seq<char>) -> Option<Mode> {
    let l = text::lower(s);
    if l == "major"@ || l == "ionian"@ {
        Some(Mode::Major)
    } else if l == "minor"@ || l == "aeolian"@ {
        Some(Mode::Minor)
    } else if l == "dorian"@ {
        Some(Mode::Dorian)
    } else if l == "phrygian"@ {
        Some(Mode::Phrygian)
    } else if l == "lydian"@ {
        Some(Mode::Lydian)
    } else if l == "mixolydian"@ {
        Some(Mode::Mixolydian)
    } else if l == "locrian"@ {
        Some(Mode::Locrian)
    } else if l == "harmonic_minor"@ || l == "harmonic"@ {
        Some(Mode::HarmonicMinor)
    } else if l == "pent_major"@ || l == "pentmajor"@ {
        Some(Mode::PentMajor)
    } else if l == "pent_minor"@ || l == "pentminor"@ {
        Some(Mode::PentMinor)
    } else if l == "blues"@ {
        Some(Mode::Blues)
    } else {
        None
    }
}

/// The semitones of a mode's degrees above its tonic.
pub open spec fn mode_steps(m: Mode) -> Seq<u8> {
    match m {
        Mode::Major => seq![0u8, 2, 4, 5, 7, 9, 11],
        Mode::Minor => seq![0u8, 2, 3, 5, 7, 8, 10],
        Mode::Dorian => seq![0u8, 2, 3, 5, 7, 9, 10],
        Mode::Phrygian => seq![0u8, 1, 3, 5, 7, 8, 10],
        Mode::Lydian => seq![0u8, 2, 4, 6, 7, 9, 11],
        Mode::Mixolydian => seq![0u8, 2, 4, 5, 7, 9, 10],
        Mode::Locrian => seq![0u8, 1, 3, 5, 6, 8, 10],
        Mode::HarmonicMinor => seq![0u8, 2, 3, 5, 7, 8, 11],
        Mode::PentMajor => seq![0u8, 2, 4, 7, 9],
        Mode::PentMinor => seq![0u8, 3, 5, 7, 10],
        Mode::Blues => seq![0u8, 3, 5, 6, 7, 10],
    }
}

impl Mode {
    pub fn parse(s: &str) -> (r: Option<Mode>)
        ensures
            r == mode_named(s@),
    {
        let v: Vec<char> = text::chars_of(s);
        read_mode(v.as_slice())
    }

    /// The semitones of the mode's degrees above its tonic.
    pub fn intervals(self) -> (r: &'static [u8])
        ensures
            r@ == mode_steps(self),
            5 <= r@.len() <= 7,
            forall|i: int| 0 <= i < r@.len() ==> #[trigger] r@[i] <= 11,
    {
        let r: &'static [u8] = match self {
            Mode::Major => &[0u8, 2, 4, 5, 7, 9, 11],
            Mode::Minor => &[0u8, 2, 3, 5, 7, 8, 10],
            Mode::Dorian => &[0u8, 2, 3, 5, 7, 9, 10],
            Mode::Phrygian => &[0u8, 1, 3, 5, 7, 8, 10],
            Mode::Lydian => &[0u8, 2, 4, 6, 7, 9, 11],
            Mode::Mixolydian => &[0u8, 2, 4, 5, 7, 9, 10],
            Mode::Locrian => &[0u8, 1, 3, 5, 6, 8, 10],
            Mode::HarmonicMinor => &[0u8, 2, 3, 5, 7, 8, 11],
            Mode::PentMajor => &[0u8, 2, 4, 7, 9],
            Mode::PentMinor => &[0u8, 3, 5, 7, 10],
            Mode::Blues => &[0u8, 3, 5, 6, 7, 10],
        };
        assert(r@ =~= mode_steps(self));
        r
    }
}

pub fn read_mode(s: &[char]) -> (r: Option<Mode>)
    ensures
        r == mode_named(s@),
{
    let l: Vec<char> = text::lower_of(s);
    let t: &[char] = l.as_slice();
    if text::is_lit(t, "major") || text::is_lit(t, "ionian") {
        Some(Mode::Major)
    } else if text::is_lit(t, "minor") || text::is_lit(t, "aeolian") {
        Some(Mode::Minor)
    } else if text::is_lit(t, "dorian") {
        Some(Mode::Dorian)
    } else if text::is_lit(t, "phrygian") {
        Some(Mode::Phrygian)
    } else if text::is_lit(t, "lydian") {
        Some(Mode::Lydian)
    } else if text::is_lit(t, "mixolydian") {
        Some(Mode::Mixolydian)
    } else if text::is_lit(t, "locrian") {
        Some(Mode::Locrian)
    } else if text::is_lit(t, "harmonic_minor") || text::is_lit(t, "harmonic") {
        Some(Mode::HarmonicMinor)
    } else if text::is_lit(t, "pent_major") || text::is_lit(t, "pentmajor") {
        Some(Mode::PentMajor)
    } else if text::is_lit(t, "pent_minor") || text::is_lit(t, "pentminor") {
        Some(Mode::PentMinor)
    } else if text::is_lit(t, "blues") {
        Some(Mode::Blues)
    } else {
        None
    }
}

/// The pitch class a text starts with: a letter, then at once its end, a
/// sharp or a flat. What follows an accidental does not matter.
pub open spec fn key_named(s: Seq<char>) -> Option<u8> {
    if s.len() == 0 || crate::vip::letter_pitch(s[0]) is None {
        None
    } else {
        let pc = crate::vip::letter_pitch(s[0])->0;
        if s.len() == 1 {
            Some(pc as u8)
        } else if s[1] == '#' {
            Some(((pc + 1) % 12) as u8)
        } else if s[1] == 'b' {
            Some(((pc + 11) % 12) as u8)
        } else {
            None
        }
    }
}

pub fn read_key(s: &[char]) -> (r: Option<u8>)
    ensures
        r == key_named(s@),
        r is Some ==> r->0 < 12,
{
    if s.len() == 0 {
        return None;
    }
    let pc: u8 = match text::to_upper(s[0]) {
        'C' => 0,
        'D' => 2,
        'E' => 4,
        'F' => 5,
        'G' => 7,
        'A' => 9,
        'B' => 11,
        _ => {
            return None;
        },
    };
    if s.len() == 1 {
        Some(pc)
    } else if s[1] == '#' {
        Some((pc + 1) % 12)
    } else if s[1] == 'b' {
        Some((pc + 11) % 12)
    } else {
        None
    }
}

/// A pitch-class letter with an optional `#` or `b` (`A`, `C#`, `Bb`), as a
/// semitone 0..12.
pub fn parse_key(s: &str) -> (r: Option<u8>)
    ensures
        r == key_named(s@),
        r is Some ==> r->0 < 12,
{
    let v: Vec<char> = text::chars_of(s);
    read_key(v.as_slice())
}

} // verus!
