//! Volumes and envelopes read back into instruments.

use vstd::prelude::*;

use crate::rip::trace::{PU1, PU2};
use crate::song;
use crate::song::{Instrument, INSTRUMENTS};

verus! {

// ---------------------------------------------------------------- volumes

/// The volume column that reproduces a level. A full-scale envelope plays
/// `vol * 15 / 16`, so the level is inverted rather than copied.
pub open spec fn volume_for(level: u8) -> u8 {
    let v = (16 * level + 14) / 15;
    if v < 1 {
        1
    } else if v > 15 {
        15
    } else {
        v as u8
    }
}

pub fn cell_volume(level: u8) -> (r: u8)
    ensures
        r == volume_for(level),
{
    let v: u16 = (16 * level as u16 + 14) / 15;
    if v < 1 {
        1
    } else if v > 15 {
        15
    } else {
        v as u8
    }
}

/// The volume written for a level plays that level again, for every level
/// within reach.
pub proof fn law_volume_plays_the_level(level: u8)
    requires
        1 <= level <= 14,
    ensures
        volume_for(level) as int * 15 / 16 == level,
        1 <= volume_for(level) <= 15,
{
}

/// The envelope value that produces a level at a column volume.
pub open spec fn env_value(level: u8, vol: u8) -> u8 {
    if level == 0 || vol == 0 {
        0
    } else {
        let v = (16 * level + vol - 1) / vol as int;
        if v > 15 {
            15
        } else {
            v as u8
        }
    }
}

pub fn env_for(level: u8, vol: u8) -> (r: u8)
    ensures
        r == env_value(level, vol),
        r <= 15,
        level > 0 && vol > 0 ==> r >= 1,
{
    if level == 0 || vol == 0 {
        return 0;
    }
    let a: u16 = 16 * level as u16 + vol as u16 - 1;
    let v: u16 = a / vol as u16;
    assert(v >= 1) by (nonlinear_arith)
        requires
            v == a / (vol as u16),
            a >= vol,
            vol > 0,
    ;
    if v > 15 {
        15
    } else {
        v as u8
    }
}

// ---------------------------------------------------------------- envelopes

/// An envelope in frames.
#[derive(Clone, Copy, Debug, PartialEq, Eq, Structural)]
pub struct Adsr {
    pub attack: usize,
    pub decay: usize,
    pub release: usize,
    pub peak: u8,
    pub sustain: u8,
}

/// The largest of the first `k` values; 0 for none.
pub open spec fn peak_of(v: Seq<u8>, k: nat) -> u8
    decreases k,
{
    if k == 0 {
        0
    } else {
        let b = peak_of(v, (k - 1) as nat);
        if v[k - 1] > b {
            v[k - 1]
        } else {
            b
        }
    }
}

/// Where a value first stands, from `i` on, or the length.
pub open spec fn first_of(v: Seq<u8>, x: u8, i: nat) -> nat
    decreases v.len() - i,
{
    if i >= v.len() || v[i as int] == x {
        i
    } else {
        first_of(v, x, i + 1)
    }
}

/// How many steps down end a body.
pub open spec fn ramp(b: Seq<u8>, r: nat) -> nat
    decreases b.len() - r,
{
    if r + 1 < b.len() && b[b.len() - 1 - r] < b[b.len() - 2 - r] {
        ramp(b, r + 1)
    } else {
        r
    }
}

pub open spec fn envelope(levels: Seq<u8>, vol: u8) -> Seq<u8> {
    levels.map_values(|l: u8| env_value(l, vol))
}

/// The envelope that a note's levels show: a rise to the peak, a fall to the
/// level it settles on, and a ramp into silence where it reaches silence.
pub open spec fn adsr_of(levels: Seq<u8>, vol: u8) -> Option<Adsr> {
    let env = envelope(levels, vol);
    let peak = peak_of(env, env.len());
    if peak == 0 {
        None
    } else {
        let at = first_of(env, peak, 0);
        let tail = env.skip(at as int);
        let end = first_of(tail, 0, 0);
        let body = tail.take(end as int);
        let r = if end < tail.len() {
            ramp(body, 0) + 1
        } else {
            0
        };
        let settled = if body.len() > r {
            body.len() - r - 1
        } else {
            0
        };
        let plateau = if body.len() > r {
            body.len() - r
        } else {
            0
        };
        let sustain = body[settled];
        let d = first_of(body.take(plateau), sustain, 0);
        Some(
            Adsr {
                attack: at as usize,
                decay: if d < plateau {
                    d as usize
                } else {
                    0
                },
                release: r as usize,
                peak,
                sustain,
            },
        )
    }
}

fn find_peak(v: &[u8]) -> (r: u8)
    ensures
        r == peak_of(v@, v@.len()),
{
    let mut b: u8 = 0;
    for i in 0..v.len()
        invariant
            b == peak_of(v@, i as nat),
    {
        if v[i] > b {
            b = v[i];
        }
    }
    b
}

proof fn lemma_peak(v: Seq<u8>, k: nat)
    requires
        k <= v.len(),
    ensures
        forall|i: int| 0 <= i < k ==> #[trigger] v[i] <= peak_of(v, k),
        peak_of(v, k) > 0 ==> exists|i: int| 0 <= i < k && #[trigger] v[i] == peak_of(v, k),
    decreases k,
{
    if k > 0 {
        lemma_peak(v, (k - 1) as nat);
    }
}

fn find_first(v: &[u8], x: u8) -> (r: usize)
    ensures
        r == first_of(v@, x, 0),
        r <= v@.len(),
        r < v@.len() ==> v@[r as int] == x,
        forall|i: int| 0 <= i < r ==> #[trigger] v@[i] != x,
{
    let mut i: usize = 0;
    while i < v.len() && v[i] != x
        invariant
            i <= v@.len(),
            first_of(v@, x, 0) == first_of(v@, x, i as nat),
            forall|j: int| 0 <= j < i ==> #[trigger] v@[j] != x,
        decreases v@.len() - i,
    {
        i += 1;
    }
    i
}

fn count_ramp(b: &[u8]) -> (r: usize)
    ensures
        r == ramp(b@, 0),
        b@.len() > 0 ==> r < b@.len(),
        b@.len() == 0 ==> r == 0,
{
    let n: usize = b.len();
    let mut r: usize = 0;
    while r + 1 < n && b[n - 1 - r] < b[n - 2 - r]
        invariant
            n == b@.len(),
            r < n || (r == 0 && n == 0),
            ramp(b@, 0) == ramp(b@, r as nat),
        decreases n - r,
    {
        r += 1;
    }
    r
}

/// Reads an envelope out of the levels one note played.
pub fn read_adsr(levels: &[u8], vol: u8) -> (r: Option<Adsr>)
    ensures
        r == adsr_of(levels@, vol),
        r is Some ==> 1 <= r->0.peak <= 15 && r->0.sustain <= r->0.peak,
        r is Some ==> r->0.attack <= levels@.len() && r->0.decay <= levels@.len()
            && r->0.release <= levels@.len(),
{
    let mut env: Vec<u8> = Vec::new();
    for i in 0..levels.len()
        invariant
            env@.len() == i,
            forall|j: int|
                0 <= j < i ==> #[trigger] env@[j] == env_value(levels@[j], vol) && env@[j] <= 15,
    {
        env.push(env_for(levels[i], vol));
    }
    assert(env@ =~= envelope(levels@, vol));
    let peak: u8 = find_peak(env.as_slice());
    proof {
        lemma_peak(env@, env@.len());
    }
    if peak == 0 {
        return None;
    }
    let at: usize = find_first(env.as_slice(), peak);
    assert(at < env@.len());
    let tail: &[u8] = vstd::slice::slice_subrange(env.as_slice(), at, env.len());
    assert(tail@ =~= env@.skip(at as int));
    let end: usize = find_first(tail, 0);
    assert(tail@[0] == peak);
    let body: &[u8] = vstd::slice::slice_subrange(tail, 0, end);
    assert(body@ =~= tail@.take(end as int));
    assert(end > 0);
    let mut r: usize = 0;
    if end < tail.len() {
        r = count_ramp(body) + 1;
    }
    let settled: usize = if body.len() > r {
        body.len() - r - 1
    } else {
        0
    };
    let plateau: usize = if body.len() > r {
        body.len() - r
    } else {
        0
    };
    let sustain: u8 = body[settled];
    assert(body@[settled as int] == env@[at + settled]);
    let flat: &[u8] = vstd::slice::slice_subrange(body, 0, plateau);
    assert(flat@ =~= body@.take(plateau as int));
    let d: usize = find_first(flat, sustain);
    let decay: usize = if d < plateau {
        d
    } else {
        0
    };
    Some(Adsr { attack: at, decay, release: r, peak, sustain })
}

/// Frames in milliseconds, rounded, at 60.0988 frames a second.
pub open spec fn ms_of(frames: nat) -> u16 {
    let n = (20_000_000 * frames as int + 600_988) / 1_201_976;
    if n > u16::MAX {
        u16::MAX
    } else {
        n as u16
    }
}

pub fn ms(frames: usize) -> (r: u16)
    ensures
        r == ms_of(frames as nat),
{
    let n: u128 = (20_000_000 * frames as u128 + 600_988) / 1_201_976;
    if n > u16::MAX as u128 {
        u16::MAX
    } else {
        n as u16
    }
}

/// `a / b` in thousandths, rounded.
pub open spec fn milli(a: int, b: int) -> i32 {
    ((2000 * a + b) / (2 * b)) as i32
}

/// The instrument that plays an envelope, with a duty in thousandths.
pub open spec fn instrument_of(a: Adsr, duty: i32) -> Instrument {
    Instrument {
        attack_ms: ms_of(a.attack as nat),
        decay_ms: ms_of(a.decay as nat),
        sustain: milli(
            a.sustain as int,
            if a.peak < 1 {
                1
            } else {
                a.peak as int
            },
        ),
        release_ms: ms_of(a.release as nat),
        duty,
        volume: milli(a.peak as int, 15),
    }
}

impl Adsr {
    pub fn to_instrument(self, duty: i32) -> (r: Instrument)
        ensures
            r == instrument_of(self, duty),
    {
        let p: i32 = if self.peak < 1 {
            1
        } else {
            self.peak as i32
        };
        let a: i32 = 2000 * self.sustain as i32 + p;
        let b: i32 = 2 * p;
        assert(a as int / b as int >= 0) by (nonlinear_arith)
            requires
                a >= 0,
                b > 0,
        ;
        let sustain: u32 = a as u32 / b as u32;
        let volume: u32 = (2000 * self.peak as u32 + 15) / 30;
        assert(sustain as int == a as int / b as int);
        assert(sustain <= 1_000_000) by (nonlinear_arith)
            requires
                sustain as int == a as int / b as int,
                0 <= a <= 511_000,
                b >= 2,
        ;
        Instrument {
            attack_ms: ms(self.attack),
            decay_ms: ms(self.decay),
            sustain: sustain as i32,
            release_ms: ms(self.release),
            duty,
            volume: volume as i32,
        }
    }
}

// ---------------------------------------------------------------- instruments

/// What one note played: its channel, its duty bits and its levels.
#[derive(Clone, Debug)]
pub struct NoteEnv {
    pub ch: usize,
    pub duty: u8,
    pub levels: Vec<u8>,
}

#[verifier::ext_equal]
pub struct EnvView {
    pub ch: usize,
    pub duty: u8,
    pub levels: Seq<u8>,
}

impl View for NoteEnv {
    type V = EnvView;

    open spec fn view(&self) -> EnvView {
        EnvView { ch: self.ch, duty: self.duty, levels: self.levels@ }
    }
}

pub open spec fn env_views(v: Seq<NoteEnv>) -> Seq<EnvView> {
    v.map_values(|n: NoteEnv| n@)
}

/// What tells one voice from another: the channel, and the first three
/// levels in eighths of the note's own peak.
#[derive(Clone, Copy, Debug, PartialEq, Eq, Structural)]
pub struct Shape {
    pub ch: usize,
    pub a: u8,
    pub b: u8,
    pub c: u8,
}

/// A level in eighths of a peak, rounded.
pub open spec fn bucket(l: u8, peak: int) -> u8 {
    ((l * 7 + peak / 2) / peak) as u8
}

/// The bucket of the level at `i`, or of the last level before it.
pub open spec fn bucket_at(n: EnvView, i: int) -> u8 {
    let p = peak_of(n.levels, n.levels.len());
    let peak = if p < 1 {
        1int
    } else {
        p as int
    };
    if i < n.levels.len() {
        bucket(n.levels[i], peak)
    } else if n.levels.len() > 0 {
        bucket(n.levels.last(), peak)
    } else {
        0
    }
}

pub open spec fn shape_of(n: EnvView) -> Shape {
    Shape { ch: n.ch, a: bucket_at(n, 0), b: bucket_at(n, 1), c: bucket_at(n, 2) }
}

fn find_bucket(n: &NoteEnv, peak: u8, i: usize) -> (r: u8)
    requires
        peak == peak_of(n@.levels, n@.levels.len()),
    ensures
        r == bucket_at(n@, i as int),
{
    let p: u16 = if peak < 1 {
        1
    } else {
        peak as u16
    };
    if n.levels.len() == 0 {
        return 0;
    }
    let l: u8 = if i < n.levels.len() {
        n.levels[i]
    } else {
        n.levels[n.levels.len() - 1]
    };
    proof {
        lemma_peak(n.levels@, n.levels@.len());
        assert(l <= p);
    }
    let num: u16 = l as u16 * 7 + p / 2;
    let q: u16 = num / p;
    assert(q <= 8) by (nonlinear_arith)
        requires
            q == num / p,
            num <= p * 7 + p / 2,
            p >= 1,
    ;
    assert(q as int == (l * 7 + p as int / 2) / p as int);
    q as u8
}

fn find_shape(n: &NoteEnv) -> (r: Shape)
    ensures
        r == shape_of(n@),
{
    let peak: u8 = find_peak(n.levels.as_slice());
    Shape {
        ch: n.ch,
        a: find_bucket(n, peak, 0),
        b: find_bucket(n, peak, 1),
        c: find_bucket(n, peak, 2),
    }
}

/// Notes of one shape.
#[verifier::ext_equal]
pub struct Voice {
    pub shape: Shape,
    pub members: Seq<usize>,
}

/// Where a shape stands, from `i` on, or the length.
pub open spec fn shape_index(vs: Seq<Voice>, s: Shape, i: nat) -> nat
    decreases vs.len() - i,
{
    if i >= vs.len() || vs[i as int].shape == s {
        i
    } else {
        shape_index(vs, s, i + 1)
    }
}

/// The first `k` notes by shape, in order of first use.
pub open spec fn voices(ns: Seq<EnvView>, k: nat) -> Seq<Voice>
    decreases k,
{
    if k == 0 {
        Seq::empty()
    } else {
        let vs = voices(ns, (k - 1) as nat);
        let s = shape_of(ns[k - 1]);
        let i = shape_index(vs, s, 0);
        if i < vs.len() {
            vs.update(
                i as int,
                Voice { shape: s, members: vs[i as int].members.push((k - 1) as usize) },
            )
        } else {
            vs.push(Voice { shape: s, members: seq![(k - 1) as usize] })
        }
    }
}

/// Where a voice goes among the first `k` by size: behind all that are at
/// least as busy.
pub open spec fn busy_place(vs: Seq<Voice>, n: nat, k: nat) -> nat
    decreases k,
{
    if k == 0 || vs[k - 1].members.len() >= n {
        k
    } else {
        busy_place(vs, n, (k - 1) as nat)
    }
}

/// The first `k` voices, busiest first.
pub open spec fn by_size(vs: Seq<Voice>, k: nat) -> Seq<Voice>
    decreases k,
{
    if k == 0 {
        Seq::empty()
    } else {
        let b = by_size(vs, (k - 1) as nat);
        let v = vs[k - 1];
        b.insert(busy_place(b, v.members.len(), b.len()) as int, v)
    }
}

/// The first voice from `i` on that plays a channel, or the length.
pub open spec fn channel_index(vs: Seq<Voice>, ch: usize, i: nat) -> nat
    decreases vs.len() - i,
{
    if i >= vs.len() || vs[i as int].shape.ch == ch {
        i
    } else {
        channel_index(vs, ch, i + 1)
    }
}

/// The table's voices after the first `k` beyond it have been folded into
/// one on their channel, or else the first.
pub open spec fn folded(all: Seq<Voice>, k: nat) -> Seq<Voice>
    decreases k,
{
    if k <= INSTRUMENTS {
        all.take(INSTRUMENTS as int)
    } else {
        let vs = folded(all, (k - 1) as nat);
        let v = all[k - 1];
        let i = channel_index(vs, v.shape.ch, 0);
        let home = if i < vs.len() {
            i as int
        } else {
            0
        };
        vs.update(
            home,
            Voice { shape: vs[home].shape, members: vs[home].members + v.members },
        )
    }
}

/// The voices that fit in the table: all of them, or the busiest with the
/// rest folded in.
pub open spec fn kept_voices(ns: Seq<EnvView>) -> Seq<Voice> {
    let vs = voices(ns, ns.len());
    if vs.len() > INSTRUMENTS {
        let all = by_size(vs, vs.len());
        folded(all, all.len())
    } else {
        vs
    }
}

/// The last of the first `k` members whose note is longest.
pub open spec fn longest(ns: Seq<EnvView>, m: Seq<usize>, k: nat) -> usize
    decreases k,
{
    if k <= 1 {
        m[0]
    } else {
        let b = longest(ns, m, (k - 1) as nat);
        if ns[m[k - 1] as int].levels.len() >= ns[b as int].levels.len() {
            m[k - 1]
        } else {
            b
        }
    }
}

/// The loudest level among the first `k` members.
pub open spec fn loudest(ns: Seq<EnvView>, m: Seq<usize>, k: nat) -> u8
    decreases k,
{
    if k == 0 {
        0
    } else {
        let b = loudest(ns, m, (k - 1) as nat);
        let l = ns[m[k - 1] as int].levels;
        if peak_of(l, l.len()) > b {
            peak_of(l, l.len())
        } else {
            b
        }
    }
}

/// Levels scaled so that their peak is another.
pub open spec fn scaled(l: Seq<u8>, top: u8) -> Seq<u8> {
    let p = peak_of(l, l.len());
    let peak = if p < 1 {
        1int
    } else {
        p as int
    };
    l.map_values(|x: u8| (x * top / peak) as u8)
}

/// The duty of a note, in thousandths; only the pulses have one.
pub open spec fn duty_of_note(n: EnvView) -> i32 {
    if n.ch == PU1 || n.ch == PU2 {
        if n.duty == 0 {
            125
        } else if n.duty == 1 {
            250
        } else if n.duty == 2 {
            500
        } else {
            750
        }
    } else {
        500
    }
}

/// The instrument of a voice: the envelope of its longest note at the volume
/// of its loudest.
pub open spec fn voice_instrument(ns: Seq<EnvView>, v: Voice) -> Instrument {
    let i = longest(ns, v.members, v.members.len());
    let top = loudest(ns, v.members, v.members.len());
    let n = ns[i as int];
    instrument_of(
        match adsr_of(scaled(n.levels, top), 15) {
            Some(a) => a,
            None => Adsr { attack: 0, decay: 0, release: 0, peak: 15, sustain: 15 },
        },
        duty_of_note(n),
    )
}

/// Where an instrument stands, from `i` on, or the length.
pub open spec fn instrument_index(v: Seq<Instrument>, x: Instrument, i: nat) -> nat
    decreases v.len() - i,
{
    if i >= v.len() || v[i as int] == x {
        i
    } else {
        instrument_index(v, x, i + 1)
    }
}

/// The different instruments of the first `k` voices.
pub open spec fn instruments(ns: Seq<EnvView>, vs: Seq<Voice>, k: nat) -> Seq<Instrument>
    decreases k,
{
    if k == 0 {
        Seq::empty()
    } else {
        let v = instruments(ns, vs, (k - 1) as nat);
        let x = voice_instrument(ns, vs[k - 1]);
        if instrument_index(v, x, 0) < v.len() {
            v
        } else {
            v.push(x)
        }
    }
}

/// The voice of note `k` among the first `i` voices: the last that has it.
pub open spec fn voice_of(vs: Seq<Voice>, k: usize, i: nat) -> nat
    decreases i,
{
    if i == 0 {
        0
    } else if vs[i - 1].members.contains(k) {
        (i - 1) as nat
    } else {
        voice_of(vs, k, (i - 1) as nat)
    }
}

/// The instruments of notes, and which one each note uses.
pub open spec fn synthesised(ns: Seq<EnvView>) -> (Seq<Instrument>, Seq<usize>) {
    let vs = kept_voices(ns);
    let all = instruments(ns, vs, vs.len());
    if ns.len() == 0 {
        (seq![song::default_instrument()], Seq::empty())
    } else {
        (
            all,
            Seq::new(
                ns.len(),
                |k: int|
                    instrument_index(
                        all,
                        voice_instrument(ns, vs[voice_of(vs, k as usize, vs.len()) as int]),
                        0,
                    ) as usize,
            ),
        )
    }
}

/// Every voice has a member, and every member is one of `n` notes.
pub open spec fn sound(vs: Seq<Voice>, n: nat) -> bool {
    forall|i: int|
        0 <= i < vs.len() ==> (#[trigger] vs[i]).members.len() > 0 && forall|j: int|
            0 <= j < vs[i].members.len() ==> (#[trigger] vs[i].members[j]) < n
}

struct Group {
    shape: Shape,
    members: Vec<usize>,
}

impl View for Group {
    type V = Voice;

    closed spec fn view(&self) -> Voice {
        Voice { shape: self.shape, members: self.members@ }
    }
}

spec fn group_views(v: Seq<Group>) -> Seq<Voice> {
    v.map_values(|g: Group| g@)
}

proof fn lemma_groups_push(v: Seq<Group>, g: Group)
    ensures
        group_views(v.push(g)) =~= group_views(v).push(g@),
{
}

fn find_group(v: &Vec<Group>, s: Shape) -> (r: usize)
    ensures
        r == shape_index(group_views(v@), s, 0),
        r <= v@.len(),
{
    let mut i: usize = 0;
    assert(group_views(v@).len() == v@.len());
    while i < v.len() && v[i].shape != s
        invariant
            i <= v@.len(),
            group_views(v@).len() == v@.len(),
            shape_index(group_views(v@), s, 0) == shape_index(group_views(v@), s, i as nat),
        decreases v@.len() - i,
    {
        assert(group_views(v@)[i as int] == v@[i as int]@);
        i += 1;
    }
    if i < v.len() {
        assert(group_views(v@)[i as int] == v@[i as int]@);
    }
    i
}

fn find_channel(v: &Vec<Group>, ch: usize) -> (r: usize)
    ensures
        r == channel_index(group_views(v@), ch, 0),
        r <= v@.len(),
{
    let mut i: usize = 0;
    assert(group_views(v@).len() == v@.len());
    while i < v.len() && v[i].shape.ch != ch
        invariant
            i <= v@.len(),
            group_views(v@).len() == v@.len(),
            channel_index(group_views(v@), ch, 0) == channel_index(group_views(v@), ch, i as nat),
        decreases v@.len() - i,
    {
        assert(group_views(v@)[i as int] == v@[i as int]@);
        i += 1;
    }
    if i < v.len() {
        assert(group_views(v@)[i as int] == v@[i as int]@);
    }
    i
}

fn find_voices(ns: &Vec<NoteEnv>) -> (r: Vec<Group>)
    ensures
        group_views(r@) == voices(env_views(ns@), ns@.len()),
        sound(group_views(r@), ns@.len()),
        ns@.len() > 0 ==> r@.len() > 0,
{
    let ghost es = env_views(ns@);
    let mut v: Vec<Group> = Vec::new();
    assert(group_views(v@) =~= voices(es, 0));
    for k in 0..ns.len()
        invariant
            es == env_views(ns@),
            group_views(v@) == voices(es, k as nat),
            sound(group_views(v@), k as nat),
            k > 0 ==> v@.len() > 0,
    {
        let s: Shape = find_shape(&ns[k]);
        let i: usize = find_group(&v, s);
        let ghost before = group_views(v@);
        assert(es[k as int] == ns@[k as int]@);
        assert(before.len() == v@.len());
        if i < v.len() {
            assert(before[i as int] == v@[i as int]@);
            proof {
                lemma_shape_index(before, s, 0);
            }
            v[i].members.push(k);
            assert(group_views(v@) =~= voices(es, (k + 1) as nat));
        } else {
            let mut members: Vec<usize> = Vec::new();
            members.push(k);
            assert(members@ =~= seq![k]);
            let g: Group = Group { shape: s, members };
            proof {
                lemma_groups_push(v@, g);
            }
            v.push(g);
            assert(group_views(v@) =~= voices(es, (k + 1) as nat));
        }
    }
    v
}

proof fn lemma_shape_index(vs: Seq<Voice>, s: Shape, i: nat)
    requires
        shape_index(vs, s, i) < vs.len(),
        i <= vs.len(),
    ensures
        vs[shape_index(vs, s, i) as int].shape == s,
    decreases vs.len() - i,
{
    if i < vs.len() && vs[i as int].shape != s {
        lemma_shape_index(vs, s, i + 1);
    }
}

/// Sorts voices busiest first, keeping the order of equals.
fn sort_groups(v: Vec<Group>, Ghost(n): Ghost<nat>) -> (r: Vec<Group>)
    requires
        sound(group_views(v@), n),
    ensures
        group_views(r@) == by_size(group_views(v@), v@.len()),
        sound(group_views(r@), n),
        r@.len() == v@.len(),
{
    let ghost all = group_views(v@);
    let mut rest: Vec<Group> = v;
    let mut out: Vec<Group> = Vec::new();
    let total: usize = rest.len();
    let ghost whole = rest@;
    assert(group_views(out@) =~= by_size(all, 0));
    for k in 0..total
        invariant
            total == whole.len(),
            all == group_views(whole),
            sound(all, n),
            rest@ == whole.skip(k as int),
            out@.len() == k,
            group_views(out@) == by_size(all, k as nat),
            sound(group_views(out@), n),
    {
        let g: Group = rest.remove(0);
        assert(g == whole[k as int]);
        assert(rest@ =~= whole.skip(k + 1));
        assert(all[k as int] == g@);
        let mut at: usize = out.len();
        let ghost before = group_views(out@);
        assert(before.len() == out@.len());
        let size: usize = g.members.len();
        while at > 0 && out[at - 1].members.len() < size
            invariant
                at <= out@.len(),
                before == group_views(out@),
                before.len() == out@.len(),
                busy_place(before, size as nat, before.len()) == busy_place(
                    before,
                    size as nat,
                    at as nat,
                ),
            decreases at,
        {
            assert(before[at - 1] == out@[at - 1]@);
            at -= 1;
        }
        if at > 0 {
            assert(before[at - 1] == out@[at - 1]@);
        }
        out.insert(at, g);
        assert(group_views(out@) =~= before.insert(at as int, g@));
        assert(group_views(out@) == by_size(all, (k + 1) as nat));
        assert(sound(group_views(out@), n)) by {
            let now = before.insert(at as int, g@);
            assert forall|i: int| 0 <= i < now.len() implies (#[trigger] now[i]).members.len() > 0
                && forall|j: int|
                0 <= j < now[i].members.len() ==> (#[trigger] now[i].members[j]) < n by {
                if i < at {
                    assert(now[i] == before[i]);
                } else if i == at {
                    assert(now[i] == all[k as int]);
                } else {
                    assert(now[i] == before[i - 1]);
                }
            }
        }
    }
    out
}

/// Keeps the first voices of the table and folds the others in.
fn fold_groups(v: Vec<Group>, Ghost(n): Ghost<nat>) -> (r: Vec<Group>)
    requires
        sound(group_views(v@), n),
        v@.len() > INSTRUMENTS,
    ensures
        group_views(r@) == folded(group_views(v@), v@.len()),
        sound(group_views(r@), n),
        r@.len() == INSTRUMENTS,
{
    let ghost all = group_views(v@);
    assert(all.len() == v@.len());
    let mut kept: Vec<Group> = v;
    let ghost whole = kept@;
    let mut spare: Vec<Group> = kept.split_off(INSTRUMENTS);
    assert(kept@ =~= whole.take(INSTRUMENTS as int));
    assert(spare@ =~= whole.skip(INSTRUMENTS as int));
    assert(group_views(kept@) =~= all.take(INSTRUMENTS as int));
    assert(sound(group_views(kept@), n)) by {
        assert forall|i: int| 0 <= i < kept@.len() implies (#[trigger] group_views(
            kept@,
        )[i]).members.len() > 0 && forall|j: int|
            0 <= j < group_views(kept@)[i].members.len() ==> (#[trigger] group_views(
                kept@,
            )[i].members[j]) < n by {
            assert(group_views(kept@)[i] == all[i]);
        }
    }
    let count: usize = spare.len();
    for k in 0..count
        invariant
            all == group_views(whole),
            all.len() == whole.len(),
            sound(all, n),
            count == spare@.len(),
            whole.len() == INSTRUMENTS + count,
            spare@ == whole.skip(INSTRUMENTS as int),
            kept@.len() == INSTRUMENTS,
            group_views(kept@) == folded(all, (INSTRUMENTS + k) as nat),
            sound(group_views(kept@), n),
    {
        let ghost before = group_views(kept@);
        assert(before.len() == kept@.len());
        assert(all[INSTRUMENTS + k] == spare@[k as int]@);
        let found: usize = find_channel(&kept, spare[k].shape.ch);
        let home: usize = if found < kept.len() {
            found
        } else {
            0
        };
        assert(before[home as int] == kept@[home as int]@);
        let size: usize = spare[k].members.len();
        let ghost own = kept@[home as int].members@;
        let mut joined: Vec<usize> = Vec::new();
        let had: usize = kept[home].members.len();
        for j in 0..had
            invariant
                home < kept@.len(),
                had == kept@[home as int].members@.len(),
                joined@ == kept@[home as int].members@.take(j as int),
        {
            joined.push(kept[home].members[j]);
        }
        for j in 0..size
            invariant
                k < spare@.len(),
                size == spare@[k as int].members@.len(),
                joined@ == own + spare@[k as int].members@.take(j as int),
        {
            joined.push(spare[k].members[j]);
            assert(joined@ =~= own + spare@[k as int].members@.take(j + 1));
        }
        assert(joined@ =~= own + spare@[k as int].members@);
        let shape: Shape = kept[home].shape;
        kept.set(home, Group { shape, members: joined });
        let ghost now = group_views(kept@);
        assert(now =~= before.update(
            home as int,
            Voice { shape: before[home as int].shape, members: own + spare@[k as int].members@ },
        ));
        assert(now == folded(all, (INSTRUMENTS + k + 1) as nat));
        assert forall|i: int| 0 <= i < now.len() implies (#[trigger] now[i]).members.len() > 0
            && forall|j: int|
            0 <= j < now[i].members.len() ==> (#[trigger] now[i].members[j]) < n by {
            if i == home {
                let extra = all[INSTRUMENTS + k].members;
                assert(now[i].members == own + extra);
                assert forall|j: int| 0 <= j < now[i].members.len() implies (
                #[trigger] now[i].members[j]) < n by {
                    if j < own.len() {
                        assert(now[i].members[j] == before[home as int].members[j]);
                    } else {
                        assert(now[i].members[j] == extra[j - own.len()]);
                    }
                }
            } else {
                assert(now[i] == before[i]);
            }
        }
    }
    kept
}

fn find_longest(ns: &Vec<NoteEnv>, m: &Vec<usize>) -> (r: usize)
    requires
        m@.len() > 0,
        forall|j: int| 0 <= j < m@.len() ==> (#[trigger] m@[j]) < ns@.len(),
    ensures
        r == longest(env_views(ns@), m@, m@.len()),
        r < ns@.len(),
{
    let ghost es = env_views(ns@);
    let mut b: usize = m[0];
    for k in 1..m.len()
        invariant
            es == env_views(ns@),
            m@.len() > 0,
            forall|j: int| 0 <= j < m@.len() ==> (#[trigger] m@[j]) < ns@.len(),
            b == longest(es, m@, k as nat),
            b < ns@.len(),
    {
        let i: usize = m[k];
        assert(es[i as int] == ns@[i as int]@);
        assert(es[b as int] == ns@[b as int]@);
        if ns[i].levels.len() >= ns[b].levels.len() {
            b = i;
        }
    }
    b
}

fn find_loudest(ns: &Vec<NoteEnv>, m: &Vec<usize>) -> (r: u8)
    requires
        forall|j: int| 0 <= j < m@.len() ==> (#[trigger] m@[j]) < ns@.len(),
    ensures
        r == loudest(env_views(ns@), m@, m@.len()),
{
    let ghost es = env_views(ns@);
    let mut b: u8 = 0;
    for k in 0..m.len()
        invariant
            es == env_views(ns@),
            forall|j: int| 0 <= j < m@.len() ==> (#[trigger] m@[j]) < ns@.len(),
            b == loudest(es, m@, k as nat),
    {
        let i: usize = m[k];
        assert(es[i as int] == ns@[i as int]@);
        let p: u8 = find_peak(ns[i].levels.as_slice());
        if p > b {
            b = p;
        }
    }
    b
}

fn scale(l: &Vec<u8>, top: u8) -> (r: Vec<u8>)
    ensures
        r@ == scaled(l@, top),
{
    let p: u8 = find_peak(l.as_slice());
    let peak: u16 = if p < 1 {
        1
    } else {
        p as u16
    };
    proof {
        lemma_peak(l@, l@.len());
    }
    let mut out: Vec<u8> = Vec::new();
    for i in 0..l.len()
        invariant
            p == peak_of(l@, l@.len()),
            peak == (if p < 1 {
                1
            } else {
                p as u16
            }),
            forall|j: int| 0 <= j < l@.len() ==> #[trigger] l@[j] <= p,
            out@.len() == i,
            forall|j: int| 0 <= j < i ==> #[trigger] out@[j] == scaled(l@, top)[j],
    {
        let x: u16 = l[i] as u16;
        assert(x <= peak);
        let num: u16 = scale_product(x, top as u16);
        let q: u16 = num / peak;
        assert(q <= top) by (nonlinear_arith)
            requires
                q == num / peak,
                num == x * top,
                x <= peak,
                peak >= 1,
        ;
        out.push(q as u8);
    }
    assert(out@ =~= scaled(l@, top));
    out
}

fn scale_product(a: u16, b: u16) -> (r: u16)
    requires
        a <= 255,
        b <= 255,
    ensures
        r == a * b,
{
    assert(a * b <= 65025) by (nonlinear_arith)
        requires
            a <= 255,
            b <= 255,
    ;
    a * b
}

/// The duty a note sounded with, in thousandths.
pub fn duty_of(n: &NoteEnv) -> (r: i32)
    ensures
        r == duty_of_note(n@),
{
    if n.ch == PU1 || n.ch == PU2 {
        if n.duty == 0 {
            125
        } else if n.duty == 1 {
            250
        } else if n.duty == 2 {
            500
        } else {
            750
        }
    } else {
        500
    }
}

fn make_instrument(ns: &Vec<NoteEnv>, g: &Group) -> (r: Instrument)
    requires
        g@.members.len() > 0,
        forall|j: int| 0 <= j < g@.members.len() ==> (#[trigger] g@.members[j]) < ns@.len(),
    ensures
        r == voice_instrument(env_views(ns@), g@),
{
    let i: usize = find_longest(ns, &g.members);
    let top: u8 = find_loudest(ns, &g.members);
    assert(env_views(ns@)[i as int] == ns@[i as int]@);
    let levels: Vec<u8> = scale(&ns[i].levels, top);
    let a: Adsr = match read_adsr(levels.as_slice(), 15) {
        Some(a) => a,
        None => Adsr { attack: 0, decay: 0, release: 0, peak: 15, sustain: 15 },
    };
    a.to_instrument(duty_of(&ns[i]))
}

fn find_instrument(v: &Vec<Instrument>, x: Instrument) -> (r: usize)
    ensures
        r == instrument_index(v@, x, 0),
        r <= v@.len(),
        r < v@.len() ==> v@[r as int] == x,
{
    let mut i: usize = 0;
    while i < v.len() && v[i] != x
        invariant
            i <= v@.len(),
            instrument_index(v@, x, 0) == instrument_index(v@, x, i as nat),
        decreases v@.len() - i,
    {
        i += 1;
    }
    i
}

proof fn lemma_index_push(v: Seq<Instrument>, y: Instrument, x: Instrument, i: nat)
    requires
        i <= v.len(),
        instrument_index(v, x, i) < v.len() || x == y,
    ensures
        instrument_index(v.push(y), x, i) == instrument_index(v, x, i),
        instrument_index(v, x, i) <= v.len(),
    decreases v.len() - i,
{
    if i < v.len() && v[i as int] != x {
        assert(v.push(y)[i as int] == v[i as int]);
        lemma_index_push(v, y, x, i + 1);
    } else if i < v.len() {
        assert(v.push(y)[i as int] == v[i as int]);
    } else {
        assert(v.push(y)[i as int] == y);
    }
}

/// The voice that each of `n` notes belongs to.
fn voices_of(v: &Vec<Group>, n: usize) -> (r: Vec<usize>)
    requires
        sound(group_views(v@), n as nat),
        n > 0 ==> v@.len() > 0,
    ensures
        r@.len() == n,
        forall|k: int|
            0 <= k < n ==> (#[trigger] r@[k]) == voice_of(group_views(v@), k as usize, v@.len())
                && r@[k] < v@.len(),
{
    let ghost vs = group_views(v@);
    assert(vs.len() == v@.len());
    let mut out: Vec<usize> = Vec::new();
    for k in 0..n
        invariant
            out@.len() == k,
            forall|j: int| 0 <= j < k ==> (#[trigger] out@[j]) == 0,
    {
        out.push(0);
    }
    for g in 0..v.len()
        invariant
            vs == group_views(v@),
            vs.len() == v@.len(),
            sound(vs, n as nat),
            n > 0 ==> v@.len() > 0,
            out@.len() == n,
            forall|k: int|
                0 <= k < n ==> (#[trigger] out@[k]) == voice_of(vs, k as usize, g as nat)
                    && out@[k] < v@.len(),
    {
        assert(vs[g as int] == v@[g as int]@);
        let size: usize = v[g].members.len();
        let ghost m = v@[g as int].members@;
        for j in 0..size
            invariant
                vs == group_views(v@),
                vs.len() == v@.len(),
                g < v@.len(),
                m == v@[g as int].members@,
                size == m.len(),
                forall|j: int| 0 <= j < m.len() ==> (#[trigger] m[j]) < n,
                out@.len() == n,
                forall|k: int|
                    0 <= k < n ==> (#[trigger] out@[k]) == (if m.take(j as int).contains(
                        k as usize,
                    ) {
                        g as nat
                    } else {
                        voice_of(vs, k as usize, g as nat)
                    }) && out@[k] < v@.len(),
        {
            let i: usize = v[g].members[j];
            assert(i == m[j as int]);
            out.set(i, g);
            assert forall|k: int| 0 <= k < n implies (#[trigger] out@[k]) == (if m.take(
                j + 1,
            ).contains(k as usize) {
                g as nat
            } else {
                voice_of(vs, k as usize, g as nat)
            }) && out@[k] < v@.len() by {
                let before = m.take(j as int);
                let now = m.take(j + 1);
                assert(now =~= before.push(i));
                if k == i {
                    assert(now[j as int] == i);
                } else if before.contains(k as usize) {
                    let w = before.index_of(k as usize);
                    assert(now[w] == before[w]);
                } else if now.contains(k as usize) {
                    let w = now.index_of(k as usize);
                    assert(w < j ==> before[w] == k);
                }
            }
        }
        assert(m.take(size as int) =~= m);
    }
    out
}

/// Groups notes by the envelope they played and makes an instrument of each
/// group.
pub fn synth_instruments(ns: &Vec<NoteEnv>) -> (r: (Vec<Instrument>, Vec<usize>))
    ensures
        (r.0@, r.1@) == synthesised(env_views(ns@)),
        1 <= r.0@.len() <= INSTRUMENTS,
        r.1@.len() == ns@.len(),
        forall|k: int| 0 <= k < r.1@.len() ==> (#[trigger] r.1@[k]) < r.0@.len(),
{
    let ghost es = env_views(ns@);
    if ns.len() == 0 {
        let mut one: Vec<Instrument> = Vec::new();
        let none: Vec<usize> = Vec::new();
        one.push(Instrument::default());
        assert(one@ =~= synthesised(es).0);
        assert(none@ =~= synthesised(es).1);
        return (one, none);
    }
    let found: Vec<Group> = find_voices(ns);
    assert(group_views(found@).len() == found@.len());
    let kept: Vec<Group> = if found.len() > INSTRUMENTS {
        let sorted: Vec<Group> = sort_groups(found, Ghost(ns@.len()));
        assert(group_views(sorted@).len() == sorted@.len());
        fold_groups(sorted, Ghost(ns@.len()))
    } else {
        found
    };
    let ghost vs = group_views(kept@);
    assert(vs == kept_voices(es));
    assert(vs.len() == kept@.len());
    let mut all: Vec<Instrument> = Vec::new();
    let mut at: Vec<usize> = Vec::new();
    assert(all@ =~= instruments(es, vs, 0));
    for k in 0..kept.len()
        invariant
            es == env_views(ns@),
            vs == group_views(kept@),
            vs.len() == kept@.len(),
            sound(vs, ns@.len()),
            all@ == instruments(es, vs, k as nat),
            all@.len() <= k,
            k > 0 ==> all@.len() > 0,
            at@.len() == k,
            forall|j: int|
                0 <= j < k ==> (#[trigger] at@[j]) == instrument_index(
                    all@,
                    voice_instrument(es, vs[j]),
                    0,
                ) && at@[j] < all@.len(),
    {
        assert(vs[k as int] == kept@[k as int]@);
        let x: Instrument = make_instrument(ns, &kept[k]);
        let i: usize = find_instrument(&all, x);
        if i == all.len() {
            proof {
                assert forall|j: int| 0 <= j < k implies (#[trigger] at@[j])
                    == instrument_index(all@.push(x), voice_instrument(es, vs[j]), 0) by {
                    assert(at@[j] < all@.len());
                    lemma_index_push(all@, x, voice_instrument(es, vs[j]), 0);
                }
                lemma_index_push(all@, x, x, 0);
            }
            all.push(x);
        }
        at.push(i);
    }
    let of: Vec<usize> = voices_of(&kept, ns.len());
    let mut assign: Vec<usize> = Vec::new();
    for k in 0..ns.len()
        invariant
            of@.len() == ns@.len(),
            at@.len() == vs.len(),
            assign@.len() == k,
            forall|j: int|
                0 <= j < of@.len() ==> (#[trigger] of@[j]) == voice_of(vs, j as usize, vs.len())
                    && of@[j] < at@.len(),
            forall|j: int|
                0 <= j < at@.len() ==> (#[trigger] at@[j]) == instrument_index(
                    all@,
                    voice_instrument(es, vs[j]),
                    0,
                ) && at@[j] < all@.len(),
            forall|j: int|
                0 <= j < k ==> (#[trigger] assign@[j]) == at@[of@[j] as int],
    {
        assign.push(at[of[k]]);
    }
    assert(all@ =~= synthesised(es).0);
    assert(assign@ =~= synthesised(es).1) by {
        assert forall|j: int| 0 <= j < assign@.len() implies #[trigger] assign@[j] == synthesised(
            es,
        ).1[j] by {
            assert(of@[j] < at@.len());
            assert(assign@[j] == at@[of@[j] as int]);
        }
    }
    assert forall|k: int| 0 <= k < assign@.len() implies (#[trigger] assign@[k]) < all@.len() by {
        assert(of@[k] < at@.len());
        assert(assign@[k] == at@[of@[k] as int]);
    }
    (all, assign)
}

} // verus!
