//! Playback decisions: which voices are gated when, how the transport walks
//! through a song, and what a rendered file looks like.
//!
//! A voice here is the state that decides what sounds; its waveform is made
//! elsewhere.

use vstd::prelude::*;

use crate::compile;
use crate::dpcm;
use crate::song::{Cell, Instrument, Phrase, Song, CHANNELS, INSTRUMENTS, STEPS_PER_PHRASE};

verus! {

// ---------------------------------------------------------------- voices

/// Which engine drives playback.
#[derive(Clone, Copy, Debug, PartialEq, Eq, Structural)]
pub enum Engine {
    Synth,
    Apu,
}

#[derive(Clone, Copy, Debug, PartialEq, Eq, Structural)]
pub enum EnvPhase {
    Idle,
    Attack,
    Decay,
    Sustain,
    Release,
}

/// One voice. `kind` is its channel.
#[derive(Clone, Copy, Debug, PartialEq, Eq)]
pub struct Voice {
    pub kind: u8,
    pub note: u8,
    pub instrument: Instrument,
    /// How hard the note was struck, out of 15.
    pub vel: u8,
    pub env: EnvPhase,
    /// The sample being played, on the sample channel.
    pub sample: Option<usize>,
    /// Samples left until the note is released by itself; 0 for never.
    pub auto_release: u32,
    /// Whether the note was struck since this was last cleared.
    pub fresh: bool,
}

pub open spec fn quiet_voice(kind: u8, i: Instrument) -> Voice {
    Voice {
        kind,
        note: 0,
        instrument: i,
        vel: 15,
        env: EnvPhase::Idle,
        sample: None,
        auto_release: 0,
        fresh: false,
    }
}

/// A note starts: the envelope rises from where it is, and a pending release
/// is forgotten. The sample channel starts its sample.
pub open spec fn gated_on(v: Voice, note: u8, i: Instrument, vel: u8) -> Voice {
    Voice {
        note,
        instrument: i,
        vel: if vel > 15 {
            15
        } else {
            vel
        },
        env: EnvPhase::Attack,
        sample: if v.kind == 4 {
            Some(dpcm::sample_index(note) as usize)
        } else {
            v.sample
        },
        auto_release: 0,
        fresh: true,
        ..v
    }
}

/// A note ends: a sounding voice is released. A sample plays to its end.
pub open spec fn gated_off(v: Voice) -> Voice {
    if v.kind == 4 {
        v
    } else {
        Voice {
            env: if v.env == EnvPhase::Idle {
                EnvPhase::Idle
            } else {
                EnvPhase::Release
            },
            auto_release: 0,
            ..v
        }
    }
}

/// A voice silenced at once.
pub open spec fn killed(v: Voice) -> Voice {
    Voice { env: EnvPhase::Idle, auto_release: 0, sample: None, ..v }
}

/// Whether the note is held: it sounds and is not being released.
pub open spec fn is_held(v: Voice) -> bool {
    v.env == EnvPhase::Attack || v.env == EnvPhase::Decay || v.env == EnvPhase::Sustain
}

/// One sample later: a note whose time is up is released.
pub open spec fn counted_down(v: Voice) -> Voice {
    if v.auto_release == 0 {
        v
    } else {
        Voice {
            auto_release: (v.auto_release - 1) as u32,
            env: if v.auto_release == 1 && is_held(v) {
                EnvPhase::Release
            } else {
                v.env
            },
            ..v
        }
    }
}

/// The phase after the level has reached what it was heading for.
pub open spec fn settled(e: EnvPhase) -> EnvPhase {
    match e {
        EnvPhase::Attack => EnvPhase::Decay,
        EnvPhase::Decay => EnvPhase::Sustain,
        EnvPhase::Release => EnvPhase::Idle,
        _ => e,
    }
}

impl Voice {
    pub fn new(kind: u8) -> (r: Voice)
        ensures
            r == quiet_voice(kind, crate::song::default_instrument()),
    {
        Voice {
            kind,
            note: 0,
            instrument: Instrument::default(),
            vel: 15,
            env: EnvPhase::Idle,
            sample: None,
            auto_release: 0,
            fresh: false,
        }
    }

    pub fn gate_on(&mut self, note: u8, i: Instrument, vel: u8)
        ensures
            *final(self) == gated_on(*old(self), note, i, vel),
    {
        self.note = note;
        self.instrument = i;
        self.vel = if vel > 15 {
            15
        } else {
            vel
        };
        self.env = EnvPhase::Attack;
        if self.kind == 4 {
            self.sample = Some(dpcm::note_to_sample(note));
        }
        self.auto_release = 0;
        self.fresh = true;
    }

    pub fn gate_off(&mut self)
        ensures
            *final(self) == gated_off(*old(self)),
    {
        if self.kind == 4 {
            return;
        }
        if self.env != EnvPhase::Idle {
            self.env = EnvPhase::Release;
        }
        self.auto_release = 0;
    }

    pub fn kill(&mut self)
        ensures
            *final(self) == killed(*old(self)),
    {
        self.env = EnvPhase::Idle;
        self.auto_release = 0;
        self.sample = None;
    }

    pub fn held(&self) -> (r: bool)
        ensures
            r == is_held(*self),
    {
        self.env == EnvPhase::Attack || self.env == EnvPhase::Decay || self.env
            == EnvPhase::Sustain
    }

    /// Counts down to a release that is pending.
    pub fn count_down(&mut self)
        ensures
            *final(self) == counted_down(*old(self)),
    {
        if self.auto_release > 0 {
            let due: bool = self.auto_release == 1 && self.held();
            self.auto_release = self.auto_release - 1;
            if due {
                self.env = EnvPhase::Release;
            }
        }
    }

    /// Goes to the next phase, the level having reached its target.
    pub fn settle(&mut self)
        ensures
            *final(self) == (Voice { env: settled(old(self).env), ..*old(self) }),
    {
        self.env = match self.env {
            EnvPhase::Attack => EnvPhase::Decay,
            EnvPhase::Decay => EnvPhase::Sustain,
            EnvPhase::Release => EnvPhase::Idle,
            e => e,
        };
    }

    /// Ends a sample that has been played through.
    pub fn end_sample(&mut self)
        ensures
            *final(self) == (Voice { env: EnvPhase::Idle, sample: None, ..*old(self) }),
    {
        self.env = EnvPhase::Idle;
        self.sample = None;
    }
}

/// A voice for each channel, all quiet.
pub fn new_voices() -> (r: [Voice; CHANNELS])
    ensures
        r@ == Seq::new(
            CHANNELS as nat,
            |c: int| quiet_voice(c as u8, crate::song::default_instrument()),
        ),
{
    let r: [Voice; CHANNELS] = [
        Voice::new(0),
        Voice::new(1),
        Voice::new(2),
        Voice::new(3),
        Voice::new(4),
    ];
    assert(r@ =~= Seq::new(
        CHANNELS as nat,
        |c: int| quiet_voice(c as u8, crate::song::default_instrument()),
    ));
    r
}

/// A note's end does not cut a sample off.
pub proof fn law_samples_are_one_shot(v: Voice)
    requires
        v.kind == 4,
    ensures
        gated_off(v) == v,
{
}

/// A note that was let go fades out: however its level moves, it is quiet
/// after one more target is reached, and it is not held in between.
pub proof fn law_release_ends_in_silence(v: Voice)
    requires
        v.kind != 4,
    ensures
        !is_held(gated_off(v)),
        settled(gated_off(v).env) == EnvPhase::Idle,
{
}

// ---------------------------------------------------------------- steps

/// What one channel's voice does on a step. A muted channel is released; a
/// cell with a note strikes it, a held cell lets it ring, and an empty one
/// releases it.
pub open spec fn stepped(
    v: Voice,
    phrase: Seq<Seq<Cell>>,
    ch: int,
    step: int,
    instruments: Seq<Instrument>,
    muted: bool,
    len: u8,
) -> Voice {
    let x = compile::cell_at(phrase, len, ch, step);
    if muted {
        gated_off(v)
    } else {
        match x.note {
            Some(n) => gated_on(
                v,
                n,
                instruments[compile::table_instr(x) as int],
                compile::full_volume(x),
            ),
            None => if x.hold {
                v
            } else {
                gated_off(v)
            },
        }
    }
}

/// Gates every voice from a step's cells.
pub fn gate_step(
    voices: &mut [Voice; CHANNELS],
    phrase: &Phrase,
    step: usize,
    instruments: &[Instrument; INSTRUMENTS],
    muted: &[bool; CHANNELS],
    channel_length: &[u8; CHANNELS],
)
    ensures
        forall|c: int|
            0 <= c < CHANNELS ==> #[trigger] final(voices)@[c] == stepped(
                old(voices)@[c],
                phrase@,
                c,
                step as int,
                instruments@,
                muted@[c],
                channel_length@[c],
            ),
{
    for ch in 0..CHANNELS
        invariant
            forall|c: int|
                0 <= c < ch ==> #[trigger] voices@[c] == stepped(
                    old(voices)@[c],
                    phrase@,
                    c,
                    step as int,
                    instruments@,
                    muted@[c],
                    channel_length@[c],
                ),
            forall|c: int| ch <= c < CHANNELS ==> #[trigger] voices@[c] == old(voices)@[c],
    {
        let mut v: Voice = voices[ch];
        if muted[ch] {
            v.gate_off();
        } else {
            let x: Cell = phrase.at(compile::wrapped_step(channel_length[ch], step), ch);
            match x.note {
                Some(n) => {
                    let i: usize = if x.instr > 15 {
                        15
                    } else {
                        x.instr as usize
                    };
                    let vel: u8 = if x.vol == 0 || x.vol > 15 {
                        15
                    } else {
                        x.vol
                    };
                    v.gate_on(n, instruments[i], vel);
                },
                None => {
                    if !x.hold {
                        v.gate_off();
                    }
                },
            }
        }
        voices[ch] = v;
    }
}

/// A step strikes what its cells say. On a channel that is not muted, a cell
/// with a note strikes that note, with the instrument of the table that the
/// cell names and the volume that it gives, or full volume; a held cell leaves
/// the voice alone; an empty one lets it go, as muting does. A channel with a
/// length of its own starts its phrase again behind it.
pub proof fn law_steps_strike_their_cells(
    v: Voice,
    phrase: Seq<Seq<Cell>>,
    ch: int,
    step: int,
    instruments: Seq<Instrument>,
    muted: bool,
    len: u8,
)
    requires
        step >= 0,
        1 <= len <= STEPS_PER_PHRASE,
        instruments.len() == INSTRUMENTS,
    ensures
        ({
            let x = phrase[step % (len as int)][ch];
            let w = stepped(v, phrase, ch, step, instruments, muted, len);
            &&& w.kind == v.kind
            &&& !muted && x.note is Some ==> {
                &&& Some(w.note) == x.note
                &&& x.instr < INSTRUMENTS ==> w.instrument == instruments[x.instr as int]
                &&& x.instr >= INSTRUMENTS ==> w.instrument == instruments.last()
                &&& 1 <= x.vol <= 15 ==> w.vel == x.vol
                &&& x.vol == 0 || x.vol > 15 ==> w.vel == 15
                &&& w.env == EnvPhase::Attack && w.fresh && w.auto_release == 0
                &&& v.kind == 4 && x.note->0 >= 60 ==> w.sample == Some(
                    (x.note->0 - 60) as usize,
                )
                &&& v.kind != 4 ==> w.sample == v.sample
            }
            &&& !muted && x.note is None && x.hold ==> w == v
            &&& muted || (x.note is None && !x.hold) ==> {
                &&& v.kind == 4 ==> w == v
                &&& v.kind != 4 ==> !is_held(w) && (v.env != EnvPhase::Idle <==> w.env
                    == EnvPhase::Release)
                &&& w.note == v.note && w.instrument == v.instrument && w.vel == v.vel
                &&& w.sample == v.sample && w.fresh == v.fresh
            }
        }),
{
}

/// A note played by hand strikes its channel's voice alone, unless that is
/// muted, and ends by itself after its time; letting go releases its voice
/// alone; and everything can be silenced at once.
pub proof fn law_live_notes_strike_their_voice(
    v: Voice,
    c: int,
    e: LiveEvent,
    instruments: Seq<Instrument>,
    muted: Seq<bool>,
    rate: u32,
)
    requires
        0 <= c < CHANNELS,
        instruments.len() == INSTRUMENTS,
    ensures
        ({
            let w = played_live(v, c, e, instruments, muted, rate);
            match e {
                LiveEvent::AllOff => w.env == EnvPhase::Idle && w.sample is None,
                LiveEvent::GateOff { ch } => {
                    &&& ch != c ==> w == v
                    &&& ch == c && v.kind != 4 ==> !is_held(w)
                },
                LiveEvent::GateOn { ch, note, instr, vel, hold_ms } => {
                    &&& ch != c || muted[c] ==> w == v
                    &&& ch == c && !muted[c] ==> {
                        &&& w.note == note && w.env == EnvPhase::Attack && w.fresh
                        &&& instr < INSTRUMENTS ==> w.instrument == instruments[instr as int]
                        &&& vel <= 15 ==> w.vel == vel
                        &&& hold_ms is None ==> w.auto_release == 0
                        &&& hold_ms matches Some(ms) ==> w.auto_release <= ms * rate / 1000 && (ms
                            * rate / 1000 <= u32::MAX ==> w.auto_release == ms * rate / 1000)
                    }
                },
            }
        }),
{
    if let LiveEvent::GateOn { hold_ms, .. } = e {
        if let Some(ms) = hold_ms {
            assert(ms * rate >= 0) by (nonlinear_arith)
                requires
                    ms >= 0,
                    rate >= 0,
            ;
        }
    }
}

/// The voice after `n` more samples.
pub open spec fn counted(v: Voice, n: nat) -> Voice
    decreases n,
{
    if n == 0 {
        v
    } else {
        counted_down(counted(v, (n - 1) as nat))
    }
}

/// A note that ends by itself is held for just its time.
pub proof fn law_notes_end_after_their_time(v: Voice, n: nat)
    requires
        v.auto_release > 0,
        is_held(v),
    ensures
        n < v.auto_release ==> is_held(counted(v, n)),
        n >= v.auto_release ==> counted(v, n).env == EnvPhase::Release,
        counted(v, n).note == v.note,
{
    lemma_counted(v, n);
}

proof fn lemma_counted(v: Voice, n: nat)
    requires
        v.auto_release > 0,
        is_held(v),
    ensures
        n < v.auto_release ==> counted(v, n).env == v.env && counted(v, n).auto_release
            == v.auto_release - n,
        n >= v.auto_release ==> counted(v, n).env == EnvPhase::Release && counted(
            v,
            n,
        ).auto_release == 0,
        counted(v, n).note == v.note,
    decreases n,
{
    if n > 0 {
        lemma_counted(v, (n - 1) as nat);
    }
}

/// A channel with a length starts its phrase again: it does on a step what it
/// does on that step less its length.
pub proof fn law_polymeter_repeats(
    v: Voice,
    phrase: Seq<Seq<Cell>>,
    ch: int,
    step: int,
    instruments: Seq<Instrument>,
    muted: bool,
    len: u8,
)
    requires
        step >= 0,
    ensures
        stepped(v, phrase, ch, step + compile::wrap_len(len), instruments, muted, len) == stepped(
            v,
            phrase,
            ch,
            step,
            instruments,
            muted,
            len,
        ),
{
    let n = compile::wrap_len(len);
    vstd::arithmetic::div_mod::lemma_mod_add_multiples_vanish(step, n);
}

/// Samples in a step: the straight length and the step's own offset, never
/// less than one, so that playback always advances.
pub open spec fn step_len(base: int, offset: int) -> int {
    if base + offset < 1 {
        1
    } else {
        base + offset
    }
}

pub fn step_samples(base_spb: u32, groove: &[i16; 16], step: usize) -> (r: u32)
    requires
        base_spb + 32_767 <= i32::MAX,
    ensures
        r == step_len(base_spb as int, groove@[step as int % 16] as int),
        r >= 1,
{
    let n: i32 = base_spb as i32 + groove[step % 16] as i32;
    if n < 1 {
        1
    } else {
        n as u32
    }
}

/// The samples of the first `k` steps.
pub open spec fn bar_len(base: int, groove: Seq<i16>, k: nat) -> int
    decreases k,
{
    if k == 0 {
        0
    } else {
        bar_len(base, groove, (k - 1) as nat) + step_len(base, groove[k - 1] as int)
    }
}

/// The offsets of the first `k` steps together.
pub open spec fn offset_sum(groove: Seq<i16>, k: nat) -> int
    decreases k,
{
    if k == 0 {
        0
    } else {
        offset_sum(groove, (k - 1) as nat) + groove[k - 1]
    }
}

/// A groove whose offsets cancel keeps the length of the bar, as long as no
/// step would be shorter than a sample.
pub proof fn law_groove_keeps_the_bar(base: int, groove: Seq<i16>, k: nat)
    requires
        k <= groove.len(),
        forall|i: int| 0 <= i < k ==> base + (#[trigger] groove[i]) >= 1,
    ensures
        bar_len(base, groove, k) == k * base + offset_sum(groove, k),
    decreases k,
{
    if k > 0 {
        let j = (k - 1) as nat;
        law_groove_keeps_the_bar(base, groove, j);
        assert(base + groove[k - 1] >= 1);
        assert(k * base == j * base + base) by (nonlinear_arith)
            requires
                k == j + 1,
        ;
    } else {
        assert(k * base == 0) by (nonlinear_arith)
            requires
                k == 0,
        ;
    }
}

// ---------------------------------------------------------------- live notes

/// A note played by hand. `hold_ms` is how many milliseconds it lasts, where
/// it ends by itself.
#[derive(Clone, Copy, Debug, PartialEq, Eq)]
pub enum LiveEvent {
    GateOn { ch: u8, note: u8, instr: u8, vel: u8, hold_ms: Option<u32> },
    GateOff { ch: u8 },
    AllOff,
}

/// Milliseconds in samples.
pub open spec fn hold_samples(ms: u32, rate: u32) -> u32 {
    if ms * rate / 1000 > u32::MAX {
        u32::MAX
    } else {
        (ms * rate / 1000) as u32
    }
}

fn hold_for(ms: u32, rate: u32) -> (r: u32)
    ensures
        r == hold_samples(ms, rate),
{
    assert(ms * rate <= u32::MAX * u32::MAX) by (nonlinear_arith)
        requires
            ms <= u32::MAX,
            rate <= u32::MAX,
    ;
    let n: u64 = ms as u64 * rate as u64 / 1000;
    if n > u32::MAX as u64 {
        u32::MAX
    } else {
        n as u32
    }
}

/// What a live event does to one channel's voice. A muted channel is not
/// struck.
pub open spec fn played_live(
    v: Voice,
    c: int,
    e: LiveEvent,
    instruments: Seq<Instrument>,
    muted: Seq<bool>,
    rate: u32,
) -> Voice {
    match e {
        LiveEvent::AllOff => killed(v),
        LiveEvent::GateOff { ch } => if ch == c {
            gated_off(v)
        } else {
            v
        },
        LiveEvent::GateOn { ch, note, instr, vel, hold_ms } => if ch == c && !muted[c] {
            let i = if instr > 15 {
                15
            } else {
                instr as int
            };
            Voice {
                auto_release: match hold_ms {
                    Some(ms) => hold_samples(ms, rate),
                    None => 0,
                },
                ..gated_on(v, note, instruments[i], vel)
            }
        } else {
            v
        },
    }
}

/// Applies one live event at a sample rate.
pub fn apply_live(
    voices: &mut [Voice; CHANNELS],
    e: LiveEvent,
    instruments: &[Instrument; INSTRUMENTS],
    muted: &[bool; CHANNELS],
    rate: u32,
)
    ensures
        forall|c: int|
            0 <= c < CHANNELS ==> #[trigger] final(voices)@[c] == played_live(
                old(voices)@[c],
                c,
                e,
                instruments@,
                muted@,
                rate,
            ),
{
    for k in 0..CHANNELS
        invariant
            forall|c: int|
                0 <= c < k ==> #[trigger] voices@[c] == played_live(
                    old(voices)@[c],
                    c,
                    e,
                    instruments@,
                    muted@,
                rate,
                ),
            forall|c: int| k <= c < CHANNELS ==> #[trigger] voices@[c] == old(voices)@[c],
    {
        let mut v: Voice = voices[k];
        match e {
            LiveEvent::AllOff => {
                v.kill();
            },
            LiveEvent::GateOff { ch } => {
                if ch as usize == k {
                    v.gate_off();
                }
            },
            LiveEvent::GateOn { ch, note, instr, vel, hold_ms } => {
                if ch as usize == k && !muted[k] {
                    let i: usize = if instr > 15 {
                        15
                    } else {
                        instr as usize
                    };
                    v.gate_on(note, instruments[i], vel);
                    if let Some(ms) = hold_ms {
                        v.auto_release = hold_for(ms, rate);
                    }
                }
            },
        }
        voices[k] = v;
    }
}

/// Silences the voices of muted channels.
pub fn mute_voices(voices: &mut [Voice; CHANNELS], muted: &[bool; CHANNELS])
    ensures
        forall|c: int|
            0 <= c < CHANNELS ==> #[trigger] final(voices)@[c] == (if muted@[c] && old(
                voices,
            )@[c].env != EnvPhase::Idle {
                killed(old(voices)@[c])
            } else {
                old(voices)@[c]
            }),
{
    for k in 0..CHANNELS
        invariant
            forall|c: int|
                0 <= c < k ==> #[trigger] voices@[c] == (if muted@[c] && old(voices)@[c].env
                    != EnvPhase::Idle {
                    killed(old(voices)@[c])
                } else {
                    old(voices)@[c]
                }),
            forall|c: int| k <= c < CHANNELS ==> #[trigger] voices@[c] == old(voices)@[c],
    {
        let mut v: Voice = voices[k];
        if muted[k] && v.env != EnvPhase::Idle {
            v.kill();
        }
        voices[k] = v;
    }
}

/// A bit for each of the first `k` channels that is not muted.
pub open spec fn open_mask(muted: Seq<bool>, k: nat) -> nat
    decreases k,
{
    if k == 0 {
        0
    } else {
        open_mask(muted, (k - 1) as nat) + (if muted[k - 1] {
            0
        } else {
            vstd::arithmetic::power2::pow2((k - 1) as nat)
        })
    }
}

pub fn channel_mask(muted: &[bool; CHANNELS]) -> (r: u8)
    ensures
        r == open_mask(muted@, CHANNELS as nat),
{
    proof {
        vstd::arithmetic::power2::lemma2_to64();
        reveal_with_fuel(open_mask, 6);
    }
    let mut m: u8 = 0;
    if !muted[0] {
        m = m + 1;
    }
    if !muted[1] {
        m = m + 2;
    }
    if !muted[2] {
        m = m + 4;
    }
    if !muted[3] {
        m = m + 8;
    }
    if !muted[4] {
        m = m + 16;
    }
    m
}

// ---------------------------------------------------------------- transport

/// What the transport plays.
#[derive(Debug)]
pub struct Transport {
    pub playing: bool,
    pub phrase: Phrase,
    pub instruments: [Instrument; INSTRUMENTS],
    pub muted: [bool; CHANNELS],
    /// Whether playback walks through the order rather than staying on one
    /// phrase.
    pub song_mode: bool,
    pub order: Vec<usize>,
    pub loop_pos: usize,
    pub phrases: Vec<Phrase>,
    pub groove: [i16; 16],
    pub channel_length: [u8; CHANNELS],
    /// Arrangement slot and place in its chain, for each order entry.
    pub arrangement_map: Vec<(usize, usize)>,
    pub engine: Engine,
}

impl Default for Transport {
    fn default() -> (t: Transport)
        ensures
            !t.playing && !t.song_mode,
            t.phrase@ == crate::song::empty_grid(),
            t.instruments@ == Seq::new(
                INSTRUMENTS as nat,
                |i: int| crate::song::default_instrument(),
            ),
            t.muted@ == Seq::new(CHANNELS as nat, |i: int| false),
            t.order@.len() == 0 && t.phrases@.len() == 0 && t.arrangement_map@.len() == 0,
            t.loop_pos == 0,
            t.groove@ == Seq::new(16, |i: int| 0i16),
            t.channel_length@ == Seq::new(CHANNELS as nat, |i: int| 16u8),
            t.engine == Engine::Synth,
    {
        let song: Song = Song::default();
        assert(song@.instruments == song.instruments@);
        let instruments: [Instrument; INSTRUMENTS] = song.instruments;
        let t: Transport = Transport {
            playing: false,
            phrase: Phrase::default(),
            instruments,
            muted: [false; CHANNELS],
            song_mode: false,
            order: Vec::new(),
            loop_pos: 0,
            phrases: Vec::new(),
            groove: [0i16; 16],
            channel_length: [16u8; CHANNELS],
            arrangement_map: Vec::new(),
            engine: Engine::Synth,
        };
        assert(t.muted@ =~= Seq::new(CHANNELS as nat, |i: int| false));
        assert(t.groove@ =~= Seq::new(16, |i: int| 0i16));
        assert(t.channel_length@ =~= Seq::new(CHANNELS as nat, |i: int| 16u8));
        t
    }
}

/// Whether the order is what is played.
pub open spec fn walks(t: Transport) -> bool {
    t.song_mode && t.order@.len() > 0
}

/// Where playback is.
#[derive(Clone, Copy, Debug, PartialEq, Eq)]
pub struct Position {
    pub step: usize,
    /// Samples played of the step.
    pub sample: u32,
    pub order_pos: usize,
    pub phrase: usize,
    /// The step whose cells were last struck.
    pub gated: Option<usize>,
    pub was_playing: bool,
}

pub open spec fn at_rest() -> Position {
    Position { step: 0, sample: 0, order_pos: 0, phrase: 0, gated: None, was_playing: false }
}

impl Position {
    pub fn new() -> (p: Position)
        ensures
            p == at_rest(),
    {
        Position { step: 0, sample: 0, order_pos: 0, phrase: 0, gated: None, was_playing: false }
    }
}

/// The position when a buffer begins: from the top when playback has just
/// started.
pub open spec fn synced(p: Position, t: Transport) -> Position {
    if t.playing && !p.was_playing {
        Position {
            step: 0,
            sample: 0,
            order_pos: 0,
            phrase: if walks(t) {
                t.order@[0]
            } else {
                p.phrase
            },
            gated: None,
            was_playing: true,
        }
    } else {
        Position { was_playing: t.playing, ..p }
    }
}

/// Begins a buffer. Voices are silenced when playback has just stopped.
pub fn sync(p: &mut Position, voices: &mut [Voice; CHANNELS], t: &Transport)
    ensures
        *final(p) == synced(*old(p), *t),
        forall|c: int|
            0 <= c < CHANNELS ==> #[trigger] final(voices)@[c] == (if !t.playing && old(
                p,
            ).was_playing {
                killed(old(voices)@[c])
            } else {
                old(voices)@[c]
            }),
{
    if t.playing && !p.was_playing {
        p.step = 0;
        p.sample = 0;
        p.order_pos = 0;
        if t.song_mode && t.order.len() > 0 {
            p.phrase = t.order[0];
        }
        p.gated = None;
    } else if !t.playing && p.was_playing {
        for k in 0..CHANNELS
            invariant
                forall|c: int| 0 <= c < k ==> #[trigger] voices@[c] == killed(old(voices)@[c]),
                forall|c: int| k <= c < CHANNELS ==> #[trigger] voices@[c] == old(voices)@[c],
        {
            let mut v: Voice = voices[k];
            v.kill();
            voices[k] = v;
        }
    }
    p.was_playing = t.playing;
}

/// The phrase that is played, where there is one.
pub open spec fn sounding_phrase(p: Position, t: Transport) -> Option<Seq<Seq<Cell>>> {
    if walks(t) {
        if t.phrases@.len() == 0 {
            None
        } else if p.phrase < t.phrases@.len() {
            Some(t.phrases@[p.phrase as int]@)
        } else {
            Some(t.phrases@[t.phrases@.len() - 1]@)
        }
    } else {
        Some(t.phrase@)
    }
}

/// Whether a step has begun whose cells were not struck yet.
pub open spec fn is_due(p: Position, t: Transport) -> bool {
    t.playing && p.gated != Some(p.step)
}

/// Strikes the cells of a step that has begun.
pub fn gate_due(p: &mut Position, voices: &mut [Voice; CHANNELS], t: &Transport)
    ensures
        *final(p) == (if is_due(*old(p), *t) {
            Position { gated: Some(old(p).step), ..*old(p) }
        } else {
            *old(p)
        }),
        forall|c: int|
            0 <= c < CHANNELS ==> #[trigger] final(voices)@[c] == (if is_due(*old(p), *t)
                && sounding_phrase(*old(p), *t) is Some {
                stepped(
                    old(voices)@[c],
                    sounding_phrase(*old(p), *t)->0,
                    c,
                    old(p).step as int,
                    t.instruments@,
                    t.muted@[c],
                    t.channel_length@[c],
                )
            } else {
                old(voices)@[c]
            }),
{
    let begun: bool = match p.gated {
        Some(s) => s != p.step,
        None => true,
    };
    if !t.playing || !begun {
        return;
    }
    let step: usize = p.step;
    p.gated = Some(step);
    if t.song_mode && t.order.len() > 0 {
        if t.phrases.len() == 0 {
            return;
        }
        let i: usize = if p.phrase < t.phrases.len() {
            p.phrase
        } else {
            t.phrases.len() - 1
        };
        gate_step(voices, &t.phrases[i], step, &t.instruments, &t.muted, &t.channel_length);
    } else {
        gate_step(voices, &t.phrase, step, &t.instruments, &t.muted, &t.channel_length);
    }
}

/// The entry after one of the order, or the loop point behind the last.
pub open spec fn next_entry(pos: usize, order: nat, loop_pos: usize) -> usize {
    if pos + 1 < order {
        (pos + 1) as usize
    } else if loop_pos < order {
        loop_pos
    } else {
        (order - 1) as usize
    }
}

/// The position one sample later.
pub open spec fn advanced(p: Position, t: Transport, base_spb: u32) -> Position {
    let len = step_len(base_spb as int, t.groove@[p.step as int % 16] as int);
    if p.sample + 1 < len {
        Position { sample: (p.sample + 1) as u32, ..p }
    } else {
        let step = (p.step + 1) % 16;
        let turned = Position { sample: 0, step: step as usize, ..p };
        if step == 0 && walks(t) {
            let e = next_entry(p.order_pos, t.order@.len(), t.loop_pos);
            Position { order_pos: e, phrase: t.order@[e as int], ..turned }
        } else {
            turned
        }
    }
}

/// Goes on by one sample.
pub fn advance(p: &mut Position, t: &Transport, base_spb: u32)
    requires
        base_spb + 32_767 <= i32::MAX,
        old(p).step < STEPS_PER_PHRASE,
    ensures
        *final(p) == advanced(*old(p), *t, base_spb),
        final(p).step < STEPS_PER_PHRASE,
{
    let len: u32 = step_samples(base_spb, &t.groove, p.step);
    if p.sample < len - 1 {
        p.sample = p.sample + 1;
        return;
    }
    p.sample = 0;
    p.step = (p.step + 1) % STEPS_PER_PHRASE;
    let n: usize = t.order.len();
    if p.step == 0 && t.song_mode && n > 0 {
        let e: usize = if p.order_pos < n - 1 {
            p.order_pos + 1
        } else if t.loop_pos < n {
            t.loop_pos
        } else {
            n - 1
        };
        p.order_pos = e;
        p.phrase = t.order[e];
    }
}

/// The walk through a song stays within its order, and the phrase played is
/// the one that the order names there.
pub proof fn law_walk_follows_the_order(p: Position, t: Transport, base_spb: u32)
    requires
        walks(t),
        p.order_pos < t.order@.len(),
        p.phrase == t.order@[p.order_pos as int],
    ensures
        advanced(p, t, base_spb).order_pos < t.order@.len(),
        advanced(p, t, base_spb).phrase == t.order@[advanced(p, t, base_spb).order_pos as int],
{
}

/// The position after `n` more samples.
pub open spec fn played_on(p: Position, t: Transport, base_spb: u32, n: nat) -> Position
    decreases n,
{
    if n == 0 {
        p
    } else {
        advanced(played_on(p, t, base_spb, (n - 1) as nat), t, base_spb)
    }
}

/// A step lasts as many samples as its straight length and its own offset
/// come to; then the next step begins, and behind a phrase's last step the
/// first of the order's next phrase, or of the one that the song loops to.
pub proof fn law_steps_last_their_time(p: Position, t: Transport, base_spb: u32, n: nat)
    requires
        p.sample == 0,
        p.step < STEPS_PER_PHRASE,
        base_spb + t.groove@[p.step as int] >= 1,
        t.song_mode && t.order@.len() > 0 ==> p.order_pos < t.order@.len() && t.loop_pos
            < t.order@.len(),
        n <= base_spb + t.groove@[p.step as int] <= u32::MAX,
    ensures
        ({
            let q = played_on(p, t, base_spb, n);
            let len = base_spb + t.groove@[p.step as int];
            &&& n < len ==> q.step == p.step && q.sample == n && q.order_pos == p.order_pos
                && q.phrase == p.phrase
            &&& n == len && p.step < 15 ==> q.step == p.step + 1 && q.sample == 0 && q.order_pos
                == p.order_pos && q.phrase == p.phrase
            &&& n == len && p.step == 15 ==> q.step == 0 && q.sample == 0
            &&& n == len && p.step == 15 && t.song_mode && t.order@.len() > 0 ==> {
                &&& p.order_pos + 1 < t.order@.len() ==> q.order_pos == p.order_pos + 1
                &&& p.order_pos + 1 == t.order@.len() ==> q.order_pos == t.loop_pos
                &&& q.phrase == t.order@[q.order_pos as int]
            }
            &&& n == len && p.step == 15 && !(t.song_mode && t.order@.len() > 0) ==> q.phrase
                == p.phrase
        }),
    decreases n,
{
    if n > 0 {
        law_steps_last_their_time(p, t, base_spb, (n - 1) as nat);
        let before = played_on(p, t, base_spb, (n - 1) as nat);
        assert(p.step as int % 16 == p.step);
        assert(before.step == p.step && before.sample == n - 1);
        assert(t.order.len() == t.order@.len());
        assert(played_on(p, t, base_spb, n) == advanced(before, t, base_spb));
    }
}

/// What sounds is the phrase that playback is at, or the one on the screen.
pub proof fn law_the_phrase_that_is_due_sounds(p: Position, t: Transport)
    ensures
        t.song_mode && t.order@.len() > 0 && p.phrase < t.phrases@.len() ==> sounding_phrase(p, t)
            == Some(t.phrases@[p.phrase as int]@),
        !(t.song_mode && t.order@.len() > 0) ==> sounding_phrase(p, t) == Some(t.phrase@),
        is_due(p, t) <==> t.playing && p.gated != Some(p.step),
{
}

/// Playback starts at the top: with the first phrase of the order, and with
/// its first step still to be struck.
pub proof fn law_playback_starts_at_the_top(p: Position, t: Transport)
    requires
        t.playing,
        !p.was_playing,
    ensures
        synced(p, t).step == 0 && synced(p, t).sample == 0 && synced(p, t).order_pos == 0,
        is_due(synced(p, t), t),
        synced(p, t).was_playing,
        t.song_mode && t.order@.len() > 0 ==> synced(p, t).phrase == t.order@[0],
        synced(synced(p, t), t) == synced(p, t),
{
}

// ---------------------------------------------------------------- the driver's position

/// The row that is reached after a number of frames, at `num / den` frames
/// a row, and a frame a row at least.
pub open spec fn frame_row(frames: int, num: int, den: int) -> int {
    let f = if frames > 0 {
        frames - 1
    } else {
        0
    };
    if num < den {
        f
    } else {
        f * den / num
    }
}

/// A row folded back behind the loop point once the song has ended.
pub open spec fn looped_row(row: int, total: int, back: int) -> int {
    if row < total {
        row
    } else {
        back + (row - back) % (total - back)
    }
}

/// The step and the order entry that are reached after a number of frames.
pub fn apu_position(
    frames: u64,
    num: u32,
    den: u32,
    total_rows: usize,
    loop_row: usize,
) -> (r: (usize, usize))
    requires
        num > 0,
        den > 0,
        loop_row < total_rows,
    ensures
        ({
            let row = looped_row(
                frame_row(frames as int, num as int, den as int),
                total_rows as int,
                loop_row as int,
            );
            r.0 == row % 16 && r.1 == row / 16
        }),
        r.0 < STEPS_PER_PHRASE,
        r.1 * 16 < total_rows,
{
    let f: u128 = if frames > 0 {
        (frames - 1) as u128
    } else {
        0
    };
    assert(f * den <= 0xffff_ffff_ffff_ffff * 0xffff_ffff) by (nonlinear_arith)
        requires
            f <= 0xffff_ffff_ffff_ffff,
            den <= 0xffff_ffff,
    ;
    let row: u128 = if num < den {
        f
    } else {
        f * den as u128 / num as u128
    };
    assert(row == frame_row(frames as int, num as int, den as int));
    let at: u128 = if row < total_rows as u128 {
        row
    } else {
        loop_row as u128 + (row - loop_row as u128) % (total_rows - loop_row) as u128
    };
    assert(at < total_rows);
    ((at % 16) as usize, (at / 16) as usize)
}

/// Once a song has reached its loop point, playing on by its loop's length
/// brings back the same row.
pub proof fn law_loop_comes_round(row: int, total: int, back: int)
    requires
        0 <= back < total,
        back <= row,
    ensures
        looped_row(row + (total - back), total, back) == looped_row(row, total, back),
        back <= looped_row(row, total, back) < total,
{
    let n = total - back;
    vstd::arithmetic::div_mod::lemma_mod_add_multiples_vanish(row - back, n);
    if row < total {
        vstd::arithmetic::div_mod::lemma_small_mod((row - back) as nat, n as nat);
    }
    assert((row - back) + n == row + n - back);
}

/// How many rows a song has, and the row that it loops back to.
pub fn song_rows(order_len: usize, loop_pos: usize) -> (r: (usize, usize))
    requires
        order_len * 16 <= usize::MAX,
    ensures
        r.0 == 16 * (if order_len == 0 {
            1
        } else {
            order_len as int
        }),
        r.1 == 16 * (if loop_pos < order_len {
            loop_pos as int
        } else if order_len > 0 {
            order_len - 1
        } else {
            0
        }),
        r.1 < r.0,
{
    let total: usize = if order_len == 0 {
        1
    } else {
        order_len
    };
    let back: usize = if loop_pos < order_len {
        loop_pos
    } else if order_len > 0 {
        order_len - 1
    } else {
        0
    };
    (total * STEPS_PER_PHRASE, back * STEPS_PER_PHRASE)
}

/// Where the song is, for the display: the arrangement slot and the place in
/// its chain that an order entry stands for.
pub fn arrangement_at(map: &Vec<(usize, usize)>, order_pos: usize) -> (r: (usize, usize))
    ensures
        r == (if order_pos < map@.len() {
            map@[order_pos as int]
        } else {
            (0usize, 0usize)
        }),
{
    if order_pos < map.len() {
        map[order_pos]
    } else {
        (0, 0)
    }
}

// ---------------------------------------------------------------- rendering

/// Why a song is not rendered.
#[derive(Clone, Copy, Debug, PartialEq, Eq, Structural)]
pub enum BounceError {
    NoLoops,
    NothingToRender,
}

pub open spec fn bounce_text(e: BounceError) -> Seq<char> {
    match e {
        BounceError::NoLoops => "bounce: loops must be ≥ 1"@,
        BounceError::NothingToRender => "bounce: nothing to render"@,
    }
}

impl BounceError {
    pub fn message(&self) -> (r: String)
        ensures
            r@ == bounce_text(*self),
    {
        let t: Vec<char> = match self {
            BounceError::NoLoops => crate::text::chars_of("bounce: loops must be ≥ 1"),
            BounceError::NothingToRender => crate::text::chars_of("bounce: nothing to render"),
        };
        crate::text::string_of(t.as_slice())
    }
}

/// How many steps a sequence of phrases takes, played a number of times.
pub fn bounce_steps(loops: u32, sequence: usize) -> (r: Result<usize, BounceError>)
    ensures
        match r {
            Err(BounceError::NoLoops) => loops == 0,
            Err(BounceError::NothingToRender) => loops > 0 && sequence == 0,
            Ok(n) => loops > 0 && sequence > 0 && n == (if loops * (16 * sequence) > usize::MAX {
                usize::MAX as int
            } else {
                loops * (16 * sequence)
            }),
        },
{
    if loops == 0 {
        return Err(BounceError::NoLoops);
    }
    if sequence == 0 {
        return Err(BounceError::NothingToRender);
    }
    let per: u128 = 16 * sequence as u128;
    assert(loops * per <= 0xffff_ffff * (16 * 0xffff_ffff_ffff_ffff)) by (nonlinear_arith)
        requires
            loops <= 0xffff_ffff,
            per <= 16 * 0xffff_ffff_ffff_ffff,
    ;
    let all: u128 = loops as u128 * per;
    assert(all == loops * (16 * sequence)) by (nonlinear_arith)
        requires
            all == loops * per,
            per == 16 * sequence,
    ;
    Ok(
        if all > usize::MAX as u128 {
            usize::MAX
        } else {
            all as usize
        },
    )
}

/// The phrase and the step within it that a step of a rendering plays.
pub fn bounce_at(global_step: usize, sequence: usize) -> (r: (usize, usize))
    requires
        sequence > 0,
    ensures
        r.0 == (global_step as int / 16) % sequence as int,
        r.1 == global_step as int % 16,
        r.0 < sequence,
        r.1 < STEPS_PER_PHRASE,
{
    ((global_step / STEPS_PER_PHRASE) % sequence, global_step % STEPS_PER_PHRASE)
}

/// A number in two bytes, lowest first.
pub open spec fn le16(n: int) -> Seq<u8> {
    seq![(n % 0x100) as u8, (n / 0x100 % 0x100) as u8]
}

/// A number in four bytes, lowest first.
pub open spec fn le32(n: int) -> Seq<u8> {
    seq![
        (n % 0x100) as u8,
        (n / 0x100 % 0x100) as u8,
        (n / 0x1_0000 % 0x100) as u8,
        (n / 0x100_0000 % 0x100) as u8,
    ]
}

/// A sample in two's complement.
pub open spec fn sample_bytes(s: i16) -> Seq<u8> {
    le16(
        if s < 0 {
            s + 0x1_0000
        } else {
            s as int
        },
    )
}

/// The first `k` samples.
pub open spec fn sample_data(samples: Seq<i16>, k: nat) -> Seq<u8>
    decreases k,
{
    if k == 0 {
        Seq::empty()
    } else {
        sample_data(samples, (k - 1) as nat) + sample_bytes(samples[k - 1])
    }
}

/// The header of a file of mono samples of sixteen bits.
pub open spec fn wav_header(rate: u32, n: nat) -> Seq<u8> {
    seq![0x52u8, 0x49, 0x46, 0x46] + le32(36 + 2 * n as int) + seq![0x57u8, 0x41, 0x56, 0x45]
        + seq![0x66u8, 0x6D, 0x74, 0x20] + le32(16) + le16(1) + le16(1) + le32(rate as int) + le32(
        2 * rate as int,
    ) + le16(2) + le16(16) + seq![0x64u8, 0x61, 0x74, 0x61] + le32(2 * n as int)
}

fn put4(out: &mut Vec<u8>, a: u8, b: u8, c: u8, d: u8)
    ensures
        final(out)@ == old(out)@ + seq![a, b, c, d],
{
    let ghost before = out@;
    out.push(a);
    out.push(b);
    out.push(c);
    out.push(d);
    assert(out@ =~= before + seq![a, b, c, d]);
}

fn put_le16(out: &mut Vec<u8>, n: u32)
    ensures
        final(out)@ == old(out)@ + le16(n as int),
{
    let ghost before = out@;
    out.push((n % 0x100) as u8);
    out.push((n / 0x100 % 0x100) as u8);
    assert(out@ =~= before + le16(n as int));
}

fn put_le32(out: &mut Vec<u8>, n: u32)
    ensures
        final(out)@ == old(out)@ + le32(n as int),
{
    put4(
        out,
        (n % 0x100) as u8,
        (n / 0x100 % 0x100) as u8,
        (n / 0x1_0000 % 0x100) as u8,
        (n / 0x100_0000 % 0x100) as u8,
    );
}

/// Samples as a WAV file.
pub fn wav_pcm16_mono(sample_rate: u32, samples: &[i16]) -> (r: Vec<u8>)
    requires
        2 * sample_rate <= u32::MAX,
        36 + 2 * samples@.len() <= u32::MAX,
    ensures
        r@ == wav_header(sample_rate, samples@.len()) + sample_data(samples@, samples@.len()),
{
    let mut out: Vec<u8> = Vec::new();
    let size: u32 = 2 * samples.len() as u32;
    put4(&mut out, 0x52, 0x49, 0x46, 0x46);
    put_le32(&mut out, 36 + size);
    put4(&mut out, 0x57, 0x41, 0x56, 0x45);
    put4(&mut out, 0x66, 0x6D, 0x74, 0x20);
    put_le32(&mut out, 16);
    put_le16(&mut out, 1);
    put_le16(&mut out, 1);
    put_le32(&mut out, sample_rate);
    put_le32(&mut out, 2 * sample_rate);
    put_le16(&mut out, 2);
    put_le16(&mut out, 16);
    put4(&mut out, 0x64, 0x61, 0x74, 0x61);
    put_le32(&mut out, size);
    assert(out@ =~= wav_header(sample_rate, samples@.len()));
    let ghost header = out@;
    assert(out@ =~= header + sample_data(samples@, 0));
    for i in 0..samples.len()
        invariant
            out@ == header + sample_data(samples@, i as nat),
    {
        let s: i16 = samples[i];
        let n: u32 = if s < 0 {
            (s as i32 + 0x1_0000) as u32
        } else {
            s as u32
        };
        put_le16(&mut out, n);
        assert(out@ =~= header + sample_data(samples@, (i + 1) as nat));
    }
    out
}

/// A WAV file is its header of 44 bytes and two bytes a sample.
pub proof fn law_wav_length(rate: u32, samples: Seq<i16>)
    ensures
        (wav_header(rate, samples.len()) + sample_data(samples, samples.len())).len() == 44 + 2
            * samples.len(),
{
    lemma_data_len(samples, samples.len());
}

proof fn lemma_data_len(samples: Seq<i16>, k: nat)
    ensures
        sample_data(samples, k).len() == 2 * k,
    decreases k,
{
    if k > 0 {
        lemma_data_len(samples, (k - 1) as nat);
    }
}

// ---------------------------------------------------------------- reading back

/// The sample in two bytes, the lower first.
pub open spec fn sample_at(bytes: Seq<u8>, i: int) -> int {
    let n = bytes[2 * i] + 256 * bytes[2 * i + 1];
    if n >= 32_768 {
        n - 65_536
    } else {
        n
    }
}

/// What is written of samples reads back as those samples.
pub proof fn law_samples_read_back(samples: Seq<i16>, k: nat, i: int)
    requires
        0 <= i < k <= samples.len(),
    ensures
        sample_data(samples, k).len() == 2 * k,
        sample_at(sample_data(samples, k), i) == samples[i],
    decreases k,
{
    reveal_with_fuel(sample_data, 2);
    let b = sample_bytes(samples[k - 1]);
    assert(b.len() == 2);
    if i < k - 1 {
        law_samples_read_back(samples, (k - 1) as nat, i);
    } else if k > 1 {
        law_samples_read_back(samples, (k - 1) as nat, 0);
    }
    let before = sample_data(samples, (k - 1) as nat);
    let all = sample_data(samples, k);
    assert(all == before + b);
    assert(before.len() == 2 * (k - 1));
    if i < k - 1 {
        assert(all[2 * i] == before[2 * i] && all[2 * i + 1] == before[2 * i + 1]);
    } else {
        assert(all[2 * i] == b[0] && all[2 * i + 1] == b[1]);
    }
}

/// A channel is heard just where it is not muted.
pub proof fn law_muted_channels_are_closed(muted: Seq<bool>, i: int)
    requires
        0 <= i < CHANNELS,
        muted.len() == CHANNELS,
    ensures
        (open_mask(muted, CHANNELS as nat) as int / vstd::arithmetic::power2::pow2(i as nat) as int
            % 2 == 1) == !muted[i],
{
    vstd::arithmetic::power2::lemma2_to64();
    reveal_with_fuel(open_mask, 6);
    let w = |j: int|
        if muted[j] {
            0int
        } else {
            1int
        };
    let m = open_mask(muted, 5) as int;
    assert(m == w(0) + 2 * w(1) + 4 * w(2) + 8 * w(3) + 16 * w(4));
    if i == 0 {
        assert(m / 1 % 2 == w(0));
    } else if i == 1 {
        assert(m / 2 % 2 == w(1));
    } else if i == 2 {
        assert(m / 4 % 2 == w(2));
    } else if i == 3 {
        assert(m / 8 % 2 == w(3));
    } else {
        assert(m / 16 % 2 == w(4));
    }
}

/// The row that is reached is the one whose time has come and the next one's
/// has not.
pub proof fn law_rows_come_in_their_time(frames: int, num: int, den: int)
    requires
        frames >= 1,
        0 < den <= num,
    ensures
        frame_row(frames, num, den) * num <= (frames - 1) * den,
        (frames - 1) * den < (frame_row(frames, num, den) + 1) * num,
{
    let a = (frames - 1) * den;
    let r = a / num;
    assert(r * num <= a && a < (r + 1) * num) by (nonlinear_arith)
        requires
            r == a / num,
            num > 0,
    ;
}

} // verus!
