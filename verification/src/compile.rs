//! A song lowered to driver events.
//!
//! A cell with a note gates its channel on; the first empty step after it
//! releases it, and a held step says nothing. Instrument and volume changes
//! are emitted where they differ from the last value of the same phrase, so
//! that phrases can be played in any order.

use vstd::prelude::*;

use crate::dpcm;
use crate::rip::pitch;
use crate::song;
use crate::song::{
    Cell, Instrument, Phrase, Song, SongView, CHANNELS, INSTRUMENTS, STEPS_PER_PHRASE,
};
use crate::text;

verus! {

// ---------------------------------------------------------------- registers

/// The noise period of a note: the higher the note, the brighter.
pub open spec fn noise_index(note: u8) -> u8 {
    if note < 40 {
        15
    } else if note >= 96 {
        0
    } else {
        (15 - (note - 36) / 4) as u8
    }
}

pub fn noise_period_index(note: u8) -> (r: u8)
    ensures
        r == noise_index(note),
        r <= 15,
{
    if note < 40 {
        15
    } else if note >= 96 {
        0
    } else {
        15 - (note - 36) / 4
    }
}

/// A higher note never has a longer noise period.
pub proof fn law_noise_is_monotonic(a: u8, b: u8)
    requires
        a <= b,
    ensures
        noise_index(a) >= noise_index(b),
{
}

/// The note read back from a noise period plays that period.
pub proof fn law_noise_period_round_trip(idx: u16)
    requires
        idx <= 15,
    ensures
        noise_index(pitch::noise_pitch(idx)) == idx,
{
}

/// The nearest of the chip's four duty settings, for a duty in thousandths.
pub open spec fn duty_bits(duty: i32) -> u8 {
    if duty < 190 {
        0
    } else if duty < 375 {
        1
    } else if duty < 625 {
        2
    } else {
        3
    }
}

/// The duty that a setting stands for, in thousandths.
pub open spec fn duty_of(bits: int) -> int {
    if bits == 0 {
        125
    } else if bits == 1 {
        250
    } else if bits == 2 {
        500
    } else {
        750
    }
}

/// No other setting is nearer to a duty. Just above half-way between the
/// lowest two the lower is taken.
pub proof fn law_duty_is_the_nearest(duty: i32, k: int)
    requires
        0 <= k < 4,
        duty <= 187 || duty >= 190,
    ensures
        duty_bits(duty) < 4,
        ({
            let near = duty - duty_of(duty_bits(duty) as int);
            let other = duty - duty_of(k);
            &&& near <= other || near <= -other
            &&& -near <= other || -near <= -other
        }),
{
}

pub fn nes_duty(duty: i32) -> (r: u8)
    ensures
        r == duty_bits(duty),
{
    if duty < 190 {
        0
    } else if duty < 375 {
        1
    } else if duty < 625 {
        2
    } else {
        3
    }
}

/// An instrument as the driver sees it. Levels are in thousandths.
#[derive(Clone, Copy, Debug, PartialEq, Eq, Structural)]
pub struct DriverInstrument {
    pub duty: u8,
    pub attack_ms: u16,
    pub decay_ms: u16,
    pub sustain: i32,
    pub release_ms: u16,
    pub volume: i32,
}

pub open spec fn lowered_instrument(i: Instrument) -> DriverInstrument {
    DriverInstrument {
        duty: duty_bits(i.duty),
        attack_ms: i.attack_ms,
        decay_ms: i.decay_ms,
        sustain: i.sustain,
        release_ms: i.release_ms,
        volume: i.volume,
    }
}

pub fn lower_instrument(i: &Instrument) -> (r: DriverInstrument)
    ensures
        r == lowered_instrument(*i),
{
    DriverInstrument {
        duty: nes_duty(i.duty),
        attack_ms: i.attack_ms,
        decay_ms: i.decay_ms,
        sustain: i.sustain,
        release_ms: i.release_ms,
        volume: i.volume,
    }
}

// ---------------------------------------------------------------- events

#[derive(Clone, Copy, Debug, PartialEq, Eq, Structural)]
pub enum Event {
    Instr(u8),
    Vol(u8),
    /// Strike again every so many frames.
    Retrig(u8),
    Duty(u8),
    Slide(u8),
    Vibrato { depth: u8, rate: u8 },
    Arp { x: u8, y: u8 },
    EnvReset,
    Note(u8),
    Off,
}

/// An ASCII letter in upper case.
pub open spec fn upper_byte(b: u8) -> u8 {
    if 0x61 <= b <= 0x7A {
        (b - 32) as u8
    } else {
        b
    }
}

fn to_upper_byte(b: u8) -> (r: u8)
    ensures
        r == upper_byte(b),
{
    if 0x61 <= b && b <= 0x7A {
        b - 32
    } else {
        b
    }
}

/// The event of an effect, where the driver knows the letter.
pub open spec fn fx_event(cmd: u8, p: u8) -> Option<Event> {
    let c = upper_byte(cmd);
    if c == 0x52 {
        Some(Event::Retrig(p))
    } else if c == 0x44 {
        Some(Event::Duty((p % 4) as u8))
    } else if c == 0x53 {
        Some(Event::Slide(p))
    } else if c == 0x56 {
        Some(Event::Vibrato { depth: (p / 16) as u8, rate: (p % 16) as u8 })
    } else if c == 0x41 {
        Some(Event::Arp { x: (p / 16) as u8, y: (p % 16) as u8 })
    } else if c == 0x45 {
        Some(Event::EnvReset)
    } else {
        None
    }
}

pub fn effect_event(cmd: u8, p: u8) -> (r: Option<Event>)
    ensures
        r == fx_event(cmd, p),
{
    let c: u8 = to_upper_byte(cmd);
    if c == 0x52 {
        Some(Event::Retrig(p))
    } else if c == 0x44 {
        Some(Event::Duty(p % 4))
    } else if c == 0x53 {
        Some(Event::Slide(p))
    } else if c == 0x56 {
        Some(Event::Vibrato { depth: p / 16, rate: p % 16 })
    } else if c == 0x41 {
        Some(Event::Arp { x: p / 16, y: p % 16 })
    } else if c == 0x45 {
        Some(Event::EnvReset)
    } else {
        None
    }
}

/// The driver's index of a note on a channel, given how many samples there
/// are.
pub open spec fn note_index(n: u8, ch: int, samples: nat) -> u8 {
    if ch <= 1 {
        within_table(n - 24)
    } else if ch == 2 {
        within_table(n - 12)
    } else if ch == 3 {
        noise_index(n)
    } else if dpcm::sample_index(n) < samples {
        dpcm::sample_index(n) as u8
    } else if samples > 0 {
        (samples - 1) as u8
    } else {
        0
    }
}

/// The nearest entry of the pitch table.
pub open spec fn within_table(i: int) -> u8 {
    if i < 0 {
        0
    } else if i > 95 {
        95
    } else {
        i as u8
    }
}

pub fn index_of_note(n: u8, ch: usize, samples: usize) -> (r: u8)
    requires
        ch < CHANNELS,
    ensures
        r == note_index(n, ch as int, samples as nat),
{
    if ch <= 1 {
        if n < 24 {
            0
        } else if n - 24 > 95 {
            95
        } else {
            n - 24
        }
    } else if ch == 2 {
        if n < 12 {
            0
        } else if n - 12 > 95 {
            95
        } else {
            n - 12
        }
    } else if ch == 3 {
        noise_period_index(n)
    } else {
        let id: usize = dpcm::note_to_sample(n);
        if id < samples {
            id as u8
        } else if samples > 0 {
            (samples - 1) as u8
        } else {
            0
        }
    }
}

/// What a channel of a phrase last said.
#[derive(Clone, Copy, Debug, PartialEq, Eq)]
pub struct Lane {
    pub instr: Option<u8>,
    pub vol: Option<u8>,
    pub sounding: bool,
}

pub open spec fn table_instr(x: Cell) -> u8 {
    if x.instr > 15 {
        15
    } else {
        x.instr
    }
}

/// A cell's volume; none is full.
pub open spec fn full_volume(x: Cell) -> u8 {
    if x.vol == 0 || x.vol > 15 {
        15
    } else {
        x.vol
    }
}

/// What a note says: the instrument and volume where they change, the effect
/// and the note. Samples have neither instrument nor volume.
pub open spec fn note_events(l: Lane, x: Cell, n: u8, ch: int, samples: nat) -> Seq<Event> {
    let s = if ch != 4 && l.instr != Some(table_instr(x)) {
        seq![Event::Instr(table_instr(x))]
    } else {
        Seq::empty()
    };
    let s = if ch != 4 && l.vol != Some(full_volume(x)) {
        s.push(Event::Vol(full_volume(x)))
    } else {
        s
    };
    let s = match x.fx {
        Some((cmd, p)) => match fx_event(cmd, p) {
            Some(e) => s.push(e),
            None => s,
        },
        None => s,
    };
    s.push(Event::Note(note_index(n, ch, samples)))
}

/// One step of a channel.
pub open spec fn lane_step(l: Lane, x: Cell, ch: int, step: int, samples: nat) -> (
    Lane,
    Seq<Event>,
) {
    match x.note {
        Some(n) => (
            if ch == 4 {
                Lane { sounding: false, ..l }
            } else {
                Lane {
                    instr: Some(table_instr(x)),
                    vol: Some(full_volume(x)),
                    sounding: true,
                }
            },
            note_events(l, x, n, ch, samples),
        ),
        None => if x.hold {
            (
                Lane {
                    sounding: if step == 0 {
                        ch != 4
                    } else {
                        l.sounding
                    },
                    ..l
                },
                Seq::empty(),
            )
        } else if l.sounding || (step == 0 && ch != 4) {
            (Lane { sounding: false, ..l }, seq![Event::Off])
        } else {
            (l, Seq::empty())
        },
    }
}

/// How many steps a channel plays before it starts its phrase again.
pub open spec fn wrap_len(len: u8) -> int {
    if len < 1 {
        1
    } else if len > 16 {
        16
    } else {
        len as int
    }
}

/// The cell a channel plays on a step.
pub open spec fn cell_at(phrase: Seq<Seq<Cell>>, len: u8, ch: int, step: int) -> Cell {
    phrase[step % wrap_len(len)][ch]
}

pub fn wrapped_step(len: u8, step: usize) -> (r: usize)
    ensures
        r == step as int % wrap_len(len),
        r < STEPS_PER_PHRASE,
{
    let n: usize = if len < 1 {
        1
    } else if len > 16 {
        16
    } else {
        len as usize
    };
    step % n
}

/// The first `k` steps of a channel.
pub open spec fn channel_events(
    phrase: Seq<Seq<Cell>>,
    len: u8,
    ch: int,
    samples: nat,
    k: nat,
) -> (Lane, Seq<Seq<Event>>)
    decreases k,
{
    if k == 0 {
        (Lane { instr: None, vol: None, sounding: false }, Seq::empty())
    } else {
        let (l, rows) = channel_events(phrase, len, ch, samples, (k - 1) as nat);
        let (m, e) = lane_step(l, cell_at(phrase, len, ch, k - 1), ch, k - 1, samples);
        (m, rows.push(e))
    }
}

fn says(a: Option<u8>, b: u8) -> (r: bool)
    ensures
        r == (a == Some(b)),
{
    match a {
        Some(x) => x == b,
        None => false,
    }
}

fn step_lane(l: Lane, x: Cell, ch: usize, step: usize, samples: usize) -> (r: (Lane, Vec<Event>))
    requires
        ch < CHANNELS,
    ensures
        (r.0, r.1@) == lane_step(l, x, ch as int, step as int, samples as nat),
{
    let mut ev: Vec<Event> = Vec::new();
    match x.note {
        Some(n) => {
            let instr: u8 = if x.instr > 15 {
                15
            } else {
                x.instr
            };
            let vol: u8 = if x.vol == 0 || x.vol > 15 {
                15
            } else {
                x.vol
            };
            if ch != 4 && !says(l.instr, instr) {
                ev.push(Event::Instr(instr));
            }
            if ch != 4 && !says(l.vol, vol) {
                ev.push(Event::Vol(vol));
            }
            if let Some((cmd, p)) = x.fx {
                if let Some(e) = effect_event(cmd, p) {
                    ev.push(e);
                }
            }
            ev.push(Event::Note(index_of_note(n, ch, samples)));
            assert(ev@ =~= note_events(l, x, n, ch as int, samples as nat));
            let m: Lane = if ch == 4 {
                Lane { instr: l.instr, vol: l.vol, sounding: false }
            } else {
                Lane { instr: Some(instr), vol: Some(vol), sounding: true }
            };
            (m, ev)
        },
        None => {
            let mut sounding: bool = l.sounding;
            if x.hold {
                if step == 0 {
                    sounding = ch != 4;
                }
            } else if l.sounding || (step == 0 && ch != 4) {
                ev.push(Event::Off);
                sounding = false;
            }
            assert(ev@ =~= lane_step(l, x, ch as int, step as int, samples as nat).1);
            (Lane { instr: l.instr, vol: l.vol, sounding }, ev)
        },
    }
}

/// The events of one phrase, by channel and step.
#[derive(Debug)]
pub struct Pattern {
    pub channels: Vec<Vec<Vec<Event>>>,
}

pub open spec fn rows_view(v: Seq<Vec<Event>>) -> Seq<Seq<Event>> {
    v.map_values(|e: Vec<Event>| e@)
}

impl View for Pattern {
    type V = Seq<Seq<Seq<Event>>>;

    open spec fn view(&self) -> Seq<Seq<Seq<Event>>> {
        self.channels@.map_values(|c: Vec<Vec<Event>>| rows_view(c@))
    }
}

impl Pattern {
    /// What a channel says on a step.
    pub fn events(&self, step: usize, ch: usize) -> (r: &Vec<Event>)
        requires
            ch < self@.len(),
            step < self@[ch as int].len(),
        ensures
            r@ == self@[ch as int][step as int],
    {
        assert(self@[ch as int] == rows_view(self.channels@[ch as int]@));
        &self.channels[ch][step]
    }
}

/// The pattern of a phrase.
pub open spec fn pattern_of(phrase: Seq<Seq<Cell>>, lens: Seq<u8>, samples: nat) -> Seq<
    Seq<Seq<Event>>,
> {
    Seq::new(
        CHANNELS as nat,
        |c: int| channel_events(phrase, lens[c], c, samples, STEPS_PER_PHRASE as nat).1,
    )
}

fn lower_channel(phrase: &Phrase, len: u8, ch: usize, samples: usize) -> (r: Vec<Vec<Event>>)
    requires
        ch < CHANNELS,
    ensures
        rows_view(r@) == channel_events(
            phrase@,
            len,
            ch as int,
            samples as nat,
            STEPS_PER_PHRASE as nat,
        ).1,
{
    let mut l: Lane = Lane { instr: None, vol: None, sounding: false };
    let mut rows: Vec<Vec<Event>> = Vec::new();
    assert(rows_view(rows@) =~= Seq::<Seq<Event>>::empty());
    for k in 0..STEPS_PER_PHRASE
        invariant
            ch < CHANNELS,
            (l, rows_view(rows@)) == channel_events(
                phrase@,
                len,
                ch as int,
                samples as nat,
                k as nat,
            ),
    {
        let x: Cell = phrase.at(wrapped_step(len, k), ch);
        let (m, ev): (Lane, Vec<Event>) = step_lane(l, x, ch, k, samples);
        let ghost before = rows@;
        rows.push(ev);
        l = m;
        assert(rows_view(rows@) =~= rows_view(before).push(ev@));
    }
    rows
}

pub fn lower_phrase(phrase: &Phrase, lens: &[u8; CHANNELS], samples: usize) -> (r: Pattern)
    ensures
        r@ == pattern_of(phrase@, lens@, samples as nat),
{
    let mut channels: Vec<Vec<Vec<Event>>> = Vec::new();
    for c in 0..CHANNELS
        invariant
            channels@.len() == c,
            forall|d: int|
                0 <= d < c ==> rows_view((#[trigger] channels@[d])@) == channel_events(
                    phrase@,
                    lens@[d],
                    d,
                    samples as nat,
                    STEPS_PER_PHRASE as nat,
                ).1,
    {
        channels.push(lower_channel(phrase, lens[c], c, samples));
    }
    let r: Pattern = Pattern { channels };
    assert(r@ =~= pattern_of(phrase@, lens@, samples as nat));
    r
}

// ---------------------------------------------------------------- warnings

#[derive(Clone, Copy, Debug, PartialEq, Eq, Structural)]
pub enum Warning {
    /// A note on the sample channel asks for a sample that is not there.
    NoSample { phrase: usize, step: usize, note: u8, sample: usize, count: usize },
    /// The song has no order list.
    NoOrder,
    /// So many pulse notes are below the lowest period.
    LowNotes(u128),
    /// An effect letter without a meaning for the driver.
    NoEffect(u8),
}

pub open spec fn warning_text(w: Warning) -> Seq<char> {
    match w {
        Warning::NoSample { phrase, step, note, sample, count } => "phrase "@ + text::hex2(
            phrase as nat,
        ) + " step "@ + text::hex2(step as nat) + ": DPCM note "@ + text::dec(note as nat)
            + " maps to sample "@ + text::dec(sample as nat) + " but only "@ + text::dec(
            count as nat,
        ) + " exist"@,
        Warning::NoOrder => "no order list; playing all phrases in index order"@,
        Warning::LowNotes(n) => text::dec(n as nat)
            + " pulse notes below A-1 clamp to the lowest 2A03 period"@,
        Warning::NoEffect(c) => "effect `"@ + seq![c as char] + "` has no NSF meaning; ignored"@,
    }
}

impl Warning {
    pub fn message(&self) -> (r: String)
        ensures
            r@ == warning_text(*self),
    {
        let mut t: Vec<char> = Vec::new();
        match *self {
            Warning::NoSample { phrase, step, note, sample, count } => {
                text::put_str(&mut t, "phrase ");
                text::put_hex2(&mut t, phrase as u64);
                text::put_str(&mut t, " step ");
                text::put_hex2(&mut t, step as u64);
                text::put_str(&mut t, ": DPCM note ");
                text::put_dec(&mut t, note as u64);
                text::put_str(&mut t, " maps to sample ");
                text::put_dec(&mut t, sample as u64);
                text::put_str(&mut t, " but only ");
                text::put_dec(&mut t, count as u64);
                text::put_str(&mut t, " exist");
            },
            Warning::NoOrder => {
                text::put_str(&mut t, "no order list; playing all phrases in index order");
            },
            Warning::LowNotes(n) => {
                let digits: Vec<char> = text::numeral_of(n, 10);
                text::put(&mut t, digits.as_slice());
                text::put_str(&mut t, " pulse notes below A-1 clamp to the lowest 2A03 period");
            },
            Warning::NoEffect(c) => {
                text::put_str(&mut t, "effect `");
                t.push(c as char);
                text::put_str(&mut t, "` has no NSF meaning; ignored");
            },
        }
        assert(t@ =~= warning_text(*self));
        text::string_of(t.as_slice())
    }
}

/// What is noticed on the way.
#[verifier::ext_equal]
pub struct TallyView {
    pub missing: Seq<Warning>,
    pub low: nat,
    /// Letters without a meaning, in order of use.
    pub odd: Seq<u8>,
}

#[derive(Debug)]
struct Tally {
    missing: Vec<Warning>,
    low: u128,
    odd: Vec<u8>,
}

impl View for Tally {
    type V = TallyView;

    closed spec fn view(&self) -> TallyView {
        TallyView { missing: self.missing@, low: self.low as nat, odd: self.odd@ }
    }
}

/// What one cell of a phrase gives notice of.
pub open spec fn noticed(
    t: TallyView,
    x: Cell,
    p: int,
    ch: int,
    step: int,
    samples: nat,
) -> TallyView {
    match x.note {
        None => t,
        Some(n) => TallyView {
            missing: if ch == 4 && dpcm::sample_index(n) >= samples {
                t.missing.push(
                    Warning::NoSample {
                        phrase: p as usize,
                        step: step as usize,
                        note: n,
                        sample: dpcm::sample_index(n) as usize,
                        count: samples as usize,
                    },
                )
            } else {
                t.missing
            },
            low: if ch <= 1 && n < 33 {
                t.low + 1
            } else {
                t.low
            },
            odd: match x.fx {
                Some((cmd, v)) => if fx_event(cmd, v) is None {
                    t.odd.push(upper_byte(cmd))
                } else {
                    t.odd
                },
                None => t.odd,
            },
        },
    }
}

/// The first `k` steps of a channel.
pub open spec fn channel_notices(
    t: TallyView,
    phrase: Seq<Seq<Cell>>,
    p: int,
    len: u8,
    ch: int,
    samples: nat,
    k: nat,
) -> TallyView
    decreases k,
{
    if k == 0 {
        t
    } else {
        noticed(
            channel_notices(t, phrase, p, len, ch, samples, (k - 1) as nat),
            cell_at(phrase, len, ch, k - 1),
            p,
            ch,
            k - 1,
            samples,
        )
    }
}

/// The first `c` channels of a phrase.
pub open spec fn phrase_notices(
    t: TallyView,
    phrase: Seq<Seq<Cell>>,
    p: int,
    lens: Seq<u8>,
    samples: nat,
    c: nat,
) -> TallyView
    decreases c,
{
    if c == 0 {
        t
    } else {
        channel_notices(
            phrase_notices(t, phrase, p, lens, samples, (c - 1) as nat),
            phrase,
            p,
            lens[c - 1],
            c - 1,
            samples,
            STEPS_PER_PHRASE as nat,
        )
    }
}

/// The first `k` phrases.
pub open spec fn song_notices(
    phrases: Seq<Seq<Seq<Cell>>>,
    lens: Seq<u8>,
    samples: nat,
    k: nat,
) -> TallyView
    decreases k,
{
    if k == 0 {
        TallyView { missing: Seq::empty(), low: 0, odd: Seq::empty() }
    } else {
        phrase_notices(
            song_notices(phrases, lens, samples, (k - 1) as nat),
            phrases[k - 1],
            k - 1,
            lens,
            samples,
            CHANNELS as nat,
        )
    }
}

fn notice(t: &mut Tally, x: Cell, p: usize, ch: usize, step: usize, samples: usize)
    requires
        ch < CHANNELS,
        old(t)@.low < u128::MAX,
    ensures
        final(t)@ == noticed(old(t)@, x, p as int, ch as int, step as int, samples as nat),
        final(t)@.low <= old(t)@.low + 1,
{
    if let Some(n) = x.note {
        if ch == 4 {
            let id: usize = dpcm::note_to_sample(n);
            if id >= samples {
                t.missing.push(
                    Warning::NoSample { phrase: p, step, note: n, sample: id, count: samples },
                );
            }
        }
        if ch <= 1 && n < 33 {
            t.low = t.low + 1;
        }
        if let Some((cmd, v)) = x.fx {
            if effect_event(cmd, v).is_none() {
                t.odd.push(to_upper_byte(cmd));
            }
        }
    }
}

fn notice_phrase(t: &mut Tally, phrase: &Phrase, p: usize, lens: &[u8; CHANNELS], samples: usize)
    requires
        old(t)@.low <= 80 * p,
    ensures
        final(t)@ == phrase_notices(
            old(t)@,
            phrase@,
            p as int,
            lens@,
            samples as nat,
            CHANNELS as nat,
        ),
        final(t)@.low <= 80 * (p + 1),
{
    let ghost base = t@;
    for c in 0..CHANNELS
        invariant
            t@ == phrase_notices(base, phrase@, p as int, lens@, samples as nat, c as nat),
            t@.low <= 80 * p + 16 * c,
    {
        let ghost here = t@;
        for k in 0..STEPS_PER_PHRASE
            invariant
                c < CHANNELS,
                t@ == channel_notices(
                    here,
                    phrase@,
                    p as int,
                    lens@[c as int],
                    c as int,
                    samples as nat,
                    k as nat,
                ),
                t@.low <= 80 * p + 16 * c + k,
        {
            let x: Cell = phrase.at(wrapped_step(lens[c], k), c);
            notice(t, x, p, c, k, samples);
        }
    }
}

/// Warnings for the letters below `k` that occur.
pub open spec fn effect_warnings(odd: Seq<u8>, k: nat) -> Seq<Warning>
    decreases k,
{
    if k == 0 {
        Seq::empty()
    } else {
        let before = effect_warnings(odd, (k - 1) as nat);
        if odd.contains((k - 1) as u8) {
            before.push(Warning::NoEffect((k - 1) as u8))
        } else {
            before
        }
    }
}

fn holds_byte(v: &Vec<u8>, x: u8) -> (r: bool)
    ensures
        r == v@.contains(x),
{
    for i in 0..v.len()
        invariant
            forall|j: int| 0 <= j < i ==> v@[j] != x,
    {
        if v[i] == x {
            assert(v@[i as int] == x);
            return true;
        }
    }
    false
}

/// All warnings: missing samples, a missing order, low notes, and unknown
/// effects by letter.
pub open spec fn warnings_of(song: SongView) -> Seq<Warning> {
    let t = song_notices(
        song.phrases,
        song.channel_length,
        sample_count(song),
        song.phrases.len(),
    );
    let w = if song::playback(song).0.len() == 0 {
        t.missing.push(Warning::NoOrder)
    } else {
        t.missing
    };
    let w = if t.low > 0 {
        w.push(Warning::LowNotes(t.low as u128))
    } else {
        w
    };
    w + effect_warnings(t.odd, 256)
}

fn find_warnings(song: &Song, ordered: bool) -> (r: Vec<Warning>)
    requires
        ordered == (song::playback(song@).0.len() > 0),
    ensures
        r@ == warnings_of(song@),
{
    let samples: usize = count_samples(song);
    let mut t: Tally = Tally { missing: Vec::new(), low: 0, odd: Vec::new() };
    assert(t@ =~= song_notices(song@.phrases, song@.channel_length, samples as nat, 0));
    for p in 0..song.phrases.len()
        invariant
            t@ == song_notices(song@.phrases, song@.channel_length, samples as nat, p as nat),
            t@.low <= 80 * p,
    {
        assert(song@.phrases[p as int] == song.phrases@[p as int]@);
        notice_phrase(&mut t, &song.phrases[p], p, &song.channel_length, samples);
    }
    assert(song@.phrases.len() == song.phrases@.len());
    let ghost tally = t@;
    let low: u128 = t.low;
    let odd: Vec<u8> = t.odd;
    let mut w: Vec<Warning> = t.missing;
    if !ordered {
        w.push(Warning::NoOrder);
    }
    if low > 0 {
        w.push(Warning::LowNotes(low));
    }
    let ghost base = w@;
    assert(base + effect_warnings(odd@, 0) =~= base);
    for k in 0..256usize
        invariant
            w@ == base + effect_warnings(odd@, k as nat),
    {
        if holds_byte(&odd, k as u8) {
            w.push(Warning::NoEffect(k as u8));
            assert(w@ =~= base + effect_warnings(odd@, (k + 1) as nat));
        }
    }
    w
}

// ---------------------------------------------------------------- the song

/// How many samples a song plays: its own, or the built-in bank.
pub open spec fn sample_count(song: SongView) -> nat {
    if song.samples.len() == 0 {
        dpcm::BANK as nat
    } else {
        song.samples.len()
    }
}

pub fn count_samples(song: &Song) -> (r: usize)
    ensures
        r == sample_count(song@),
{
    assert(song@.samples.len() == song.samples@.len());
    if song.samples.len() == 0 {
        dpcm::BANK
    } else {
        song.samples.len()
    }
}

/// A song in driver events.
#[derive(Debug)]
pub struct Lowered {
    pub title: String,
    pub artist: String,
    pub copyright: String,
    pub bpm: u16,
    pub patterns: Vec<Pattern>,
    pub order: Vec<usize>,
    pub loop_pos: usize,
    pub instruments: Vec<DriverInstrument>,
    pub expansion: bool,
    pub warnings: Vec<Warning>,
}

#[verifier::ext_equal]
pub struct LoweredView {
    pub title: Seq<char>,
    pub artist: Seq<char>,
    pub copyright: Seq<char>,
    pub bpm: u16,
    pub patterns: Seq<Seq<Seq<Seq<Event>>>>,
    pub order: Seq<usize>,
    pub loop_pos: usize,
    pub instruments: Seq<DriverInstrument>,
    pub expansion: bool,
    pub warnings: Seq<Warning>,
}

pub open spec fn pattern_views(v: Seq<Pattern>) -> Seq<Seq<Seq<Seq<Event>>>> {
    v.map_values(|p: Pattern| p@)
}

impl View for Lowered {
    type V = LoweredView;

    open spec fn view(&self) -> LoweredView {
        LoweredView {
            title: self.title@,
            artist: self.artist@,
            copyright: self.copyright@,
            bpm: self.bpm,
            patterns: pattern_views(self.patterns@),
            order: self.order@,
            loop_pos: self.loop_pos,
            instruments: self.instruments@,
            expansion: self.expansion,
            warnings: self.warnings@,
        }
    }
}

/// A song's patterns, its flattened order (all phrases, where it has none)
/// and the loop point within it.
pub open spec fn lowered(song: SongView) -> LoweredView {
    let (order, back) = song::playback(song);
    LoweredView {
        title: if song.title.len() == 0 {
            "viper"@
        } else {
            song.title
        },
        artist: song.artist,
        copyright: song.copyright,
        bpm: song.bpm,
        patterns: song.phrases.map_values(
            |p: Seq<Seq<Cell>>| pattern_of(p, song.channel_length, sample_count(song)),
        ),
        order: if order.len() == 0 {
            Seq::new(song.phrases.len(), |i: int| i as usize)
        } else {
            order
        },
        loop_pos: if back < order.len() {
            back
        } else if order.len() > 0 {
            (order.len() - 1) as usize
        } else {
            0
        },
        instruments: song.instruments.map_values(|i: Instrument| lowered_instrument(i)),
        expansion: song.expansion,
        warnings: warnings_of(song),
    }
}

/// Lowers a song to driver events.
pub fn lower(song: &Song) -> (r: Lowered)
    ensures
        r@ == lowered(song@),
{
    let samples: usize = count_samples(song);
    let mut patterns: Vec<Pattern> = Vec::new();
    assert(song@.phrases.len() == song.phrases@.len());
    for p in 0..song.phrases.len()
        invariant
            samples == sample_count(song@),
            patterns@.len() == p,
            forall|j: int|
                0 <= j < p ==> (#[trigger] patterns@[j])@ == pattern_of(
                    song.phrases@[j]@,
                    song@.channel_length,
                    samples as nat,
                ),
    {
        patterns.push(lower_phrase(&song.phrases[p], &song.channel_length, samples));
    }
    let mut instruments: Vec<DriverInstrument> = Vec::new();
    for i in 0..INSTRUMENTS
        invariant
            instruments@.len() == i,
            forall|j: int|
                0 <= j < i ==> #[trigger] instruments@[j] == lowered_instrument(
                    song.instruments@[j],
                ),
    {
        instruments.push(lower_instrument(&song.instruments[i]));
    }
    let (flat, back): (Vec<usize>, usize) = song.flat_order();
    let ordered: bool = flat.len() > 0;
    let warnings: Vec<Warning> = find_warnings(song, ordered);
    let loop_pos: usize = if back < flat.len() {
        back
    } else if flat.len() > 0 {
        flat.len() - 1
    } else {
        0
    };
    let mut order: Vec<usize> = flat;
    if !ordered {
        for i in 0..song.phrases.len()
            invariant
                order@ == Seq::new(i as nat, |j: int| j as usize),
        {
            order.push(i);
            assert(order@ =~= Seq::new((i + 1) as nat, |j: int| j as usize));
        }
    }
    let title: String = if text::same_str(song.title.as_str(), "") {
        proof {
            reveal_strlit("");
        }
        text::string_of(text::chars_of("viper").as_slice())
    } else {
        proof {
            reveal_strlit("");
            assert(song.title@.len() == 0 ==> song.title@ =~= ""@);
        }
        song.title.clone()
    };
    let r: Lowered = Lowered {
        title,
        artist: song.artist.clone(),
        copyright: song.copyright.clone(),
        bpm: song.bpm,
        patterns,
        order,
        loop_pos,
        instruments,
        expansion: song.expansion,
        warnings,
    };
    assert(r@.patterns =~= lowered(song@).patterns);
    assert(r@ =~= lowered(song@));
    r
}

/// Every entry of a lowered song's order names one of its patterns, where
/// the song's own order does, and the loop point is one of the entries.
pub proof fn law_order_names_patterns(song: SongView, i: int)
    requires
        song.phrases.len() <= usize::MAX,
        forall|j: int|
            0 <= j < song::playback(song).0.len() ==> (#[trigger] song::playback(song).0[j])
                < song.phrases.len(),
        0 <= i < lowered(song).order.len(),
    ensures
        lowered(song).order[i] < lowered(song).patterns.len(),
        lowered(song).loop_pos < lowered(song).order.len(),
{
}

/// A note is released before its phrase ends or held to its end: on the tone
/// channels, a step that says neither a note nor an end leaves the channel as
/// it was.
pub proof fn law_silent_steps_change_nothing(l: Lane, x: Cell, ch: int, step: int, samples: nat)
    requires
        step > 0,
        lane_step(l, x, ch, step, samples).1.len() == 0,
    ensures
        lane_step(l, x, ch, step, samples).0 == l,
{
    if let Some(n) = x.note {
        assert(note_events(l, x, n, ch, samples).len() > 0);
    }
}

} // verus!
