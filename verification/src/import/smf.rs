//! Reading Standard MIDI Files.

use vstd::prelude::*;

use crate::text;

verus! {

/// A note: when it starts, how long it lasts, which key, how hard.
#[derive(Clone, Copy, Debug, PartialEq, Eq, Structural)]
pub struct MidiNote {
    pub tick: u64,
    pub len: u64,
    pub key: u8,
    pub vel: u8,
}

/// A track. Its notes are in order of their start and then of their key.
#[derive(Clone, Debug)]
pub struct MidiTrack {
    pub name: String,
    pub notes: Vec<MidiNote>,
    pub channels: Vec<u8>,
}

#[verifier::ext_equal]
pub struct TrackView {
    pub name: Seq<char>,
    pub notes: Seq<MidiNote>,
    pub channels: Seq<u8>,
}

impl View for MidiTrack {
    type V = TrackView;

    open spec fn view(&self) -> TrackView {
        TrackView { name: self.name@, notes: self.notes@, channels: self.channels@ }
    }
}

/// A file: its resolution, its tempos in order (tick, microseconds per
/// quarter) and its tracks.
#[derive(Debug)]
pub struct Midi {
    pub ticks_per_quarter: u16,
    pub tempos: Vec<(u64, u32)>,
    pub tracks: Vec<MidiTrack>,
}

#[verifier::ext_equal]
pub struct MidiView {
    pub ticks_per_quarter: u16,
    pub tempos: Seq<(u64, u32)>,
    pub tracks: Seq<TrackView>,
}

pub open spec fn track_views(v: Seq<MidiTrack>) -> Seq<TrackView> {
    v.map_values(|t: MidiTrack| t@)
}

impl View for Midi {
    type V = MidiView;

    open spec fn view(&self) -> MidiView {
        MidiView {
            ticks_per_quarter: self.ticks_per_quarter,
            tempos: self.tempos@,
            tracks: track_views(self.tracks@),
        }
    }
}

/// What is wrong with a file.
#[derive(Clone, Copy, Debug, PartialEq, Eq, Structural)]
pub enum MidiFault {
    NotMidi,
    SmpteDivision,
    /// No track chunk at this byte.
    NoTrackChunk(u64),
    TruncatedTrack,
    /// An event that runs past the end of its track.
    Truncated,
    /// A time that no counter holds.
    TooLate,
    /// Running status without a status byte.
    NoStatus,
}

/// The text of bytes that may not be UTF-8.
pub uninterp spec fn lossy_text(b: Seq<u8>) -> Seq<char>;

/// [`String::from_utf8_lossy`]: text from bytes, with what is not UTF-8
/// replaced. Which characters come out is a function of the bytes alone and
/// has a name here; of bytes that are all ASCII they are the bytes
/// themselves.
#[verifier::external_body]
fn from_lossy(b: &[u8]) -> (r: String)
    ensures
        r@ == lossy_text(b@),
        (forall|i: int| 0 <= i < b@.len() ==> #[trigger] b@[i] < 128) ==> r@.len() == b@.len()
            && forall|i: int| 0 <= i < b@.len() ==> #[trigger] r@[i] == b@[i] as char,
{
    String::from_utf8_lossy(b).into_owned()
}

/// A variable-length quantity from `i` on, after `acc`: its value and where
/// it ends. A value keeps its lowest 64 bits.
pub open spec fn vlq_from(b: Seq<u8>, i: nat, acc: nat) -> Option<(nat, nat)>
    decreases b.len() - i,
{
    if i >= b.len() {
        None
    } else {
        let v = (acc * 128) % 0x1_0000_0000_0000_0000 + (b[i as int] % 128) as nat;
        if b[i as int] < 128 {
            Some((v, i + 1))
        } else {
            vlq_from(b, i + 1, v)
        }
    }
}

/// The quantity at `i` and where it ends.
pub open spec fn vlq_at(b: Seq<u8>, i: nat) -> Option<(nat, nat)> {
    vlq_from(b, i, 0)
}

proof fn lemma_vlq(b: Seq<u8>, i: nat, acc: nat)
    ensures
        vlq_from(b, i, acc) is Some ==> {
            let (v, e) = vlq_from(b, i, acc)->0;
            &&& v < 0x1_0000_0000_0000_0000
            &&& i < e <= b.len()
        },
    decreases b.len() - i,
{
    if i < b.len() && b[i as int] >= 128 {
        lemma_vlq(
            b,
            i + 1,
            (acc * 128) % 0x1_0000_0000_0000_0000 + (b[i as int] % 128) as nat,
        );
    }
}

pub fn vlq(b: &[u8], start: usize) -> (r: Option<(u64, usize)>)
    ensures
        match r {
            Some(p) => vlq_at(b@, start as nat) == Some((p.0 as nat, p.1 as nat)) && start < p.1
                <= b@.len(),
            None => vlq_at(b@, start as nat) is None,
        },
{
    let mut i: usize = start;
    let mut v: u64 = 0;
    while i < b.len()
        invariant
            start <= i,
            start < b@.len() ==> i <= b@.len(),
            vlq_at(b@, start as nat) == vlq_from(b@, i as nat, v as nat),
        decreases b@.len() - i,
    {
        let c: u8 = b[i];
        let w: u128 = (v as u128 * 128) % 0x1_0000_0000_0000_0000;
        v = w as u64 + (c % 128) as u64;
        i += 1;
        if c < 128 {
            return Some((v, i));
        }
    }
    None
}

// ---------------------------------------------------------------- order

/// Whether a note comes before another, or with it.
pub open spec fn not_after(a: MidiNote, b: MidiNote) -> bool {
    a.tick < b.tick || (a.tick == b.tick && a.key <= b.key)
}

/// Where a note goes among the first `k`: behind all that do not come after
/// it.
pub open spec fn note_place(v: Seq<MidiNote>, n: MidiNote, k: nat) -> nat
    decreases k,
{
    if k == 0 || not_after(v[k - 1], n) {
        k
    } else {
        note_place(v, n, (k - 1) as nat)
    }
}

/// The notes with one more in its place.
pub open spec fn with_note(v: Seq<MidiNote>, n: MidiNote) -> Seq<MidiNote> {
    v.insert(note_place(v, n, v.len()) as int, n)
}

pub open spec fn notes_in_order(v: Seq<MidiNote>) -> bool {
    forall|i: int, j: int| 0 <= i <= j < v.len() ==> not_after(#[trigger] v[i], #[trigger] v[j])
}

proof fn lemma_note_place(v: Seq<MidiNote>, n: MidiNote, k: nat)
    requires
        k <= v.len(),
    ensures
        note_place(v, n, k) <= k,
        note_place(v, n, k) > 0 ==> not_after(v[note_place(v, n, k) - 1], n),
        forall|i: int| note_place(v, n, k) <= i < k ==> !not_after(#[trigger] v[i], n),
    decreases k,
{
    if k > 0 && !not_after(v[k - 1], n) {
        lemma_note_place(v, n, (k - 1) as nat);
    }
}

/// A track's notes stay in order as notes are added.
pub proof fn law_notes_stay_in_order(v: Seq<MidiNote>, n: MidiNote)
    requires
        notes_in_order(v),
    ensures
        notes_in_order(with_note(v, n)),
{
    lemma_note_place(v, n, v.len());
    let p = note_place(v, n, v.len()) as int;
    let w = with_note(v, n);
    assert forall|i: int, j: int| 0 <= i <= j < w.len() implies not_after(
        #[trigger] w[i],
        #[trigger] w[j],
    ) by {
        let a = if i < p {
            i
        } else {
            i - 1
        };
        let b = if j < p {
            j
        } else {
            j - 1
        };
        if i != p && j != p {
            assert(w[i] == v[a]);
            assert(w[j] == v[b]);
        } else if i == p && j > p {
            assert(w[j] == v[b]);
            assert(!not_after(v[b], n));
        } else if j == p && i < p {
            assert(w[i] == v[i]);
            assert(not_after(v[i], v[p - 1]));
        }
    }
}

fn add_note(v: &mut Vec<MidiNote>, n: MidiNote)
    ensures
        final(v)@ == with_note(old(v)@, n),
{
    let mut k: usize = v.len();
    while k > 0 && (v[k - 1].tick > n.tick || (v[k - 1].tick == n.tick && v[k - 1].key > n.key))
        invariant
            k <= v@.len(),
            v@ == old(v)@,
            note_place(v@, n, v@.len()) == note_place(v@, n, k as nat),
        decreases k,
    {
        k -= 1;
    }
    v.insert(k, n);
}

/// Where a tempo goes among the first `k`: behind all that start no later.
pub open spec fn tempo_place(v: Seq<(u64, u32)>, t: u64, k: nat) -> nat
    decreases k,
{
    if k == 0 || v[k - 1].0 <= t {
        k
    } else {
        tempo_place(v, t, (k - 1) as nat)
    }
}

pub open spec fn with_tempo(v: Seq<(u64, u32)>, t: u64, us: u32) -> Seq<(u64, u32)> {
    v.insert(tempo_place(v, t, v.len()) as int, (t, us))
}

fn add_tempo(v: &mut Vec<(u64, u32)>, t: u64, us: u32)
    ensures
        final(v)@ == with_tempo(old(v)@, t, us),
{
    let mut k: usize = v.len();
    while k > 0 && v[k - 1].0 > t
        invariant
            k <= v@.len(),
            v@ == old(v)@,
            tempo_place(v@, t, v@.len()) == tempo_place(v@, t, k as nat),
        decreases k,
    {
        k -= 1;
    }
    v.insert(k, (t, us));
}

// ---------------------------------------------------------------- events

/// A track while it is read.
#[verifier::ext_equal]
pub struct Reading {
    pub at: nat,
    pub tick: u64,
    pub running: Option<u8>,
    pub track: TrackView,
    /// Start and velocity of the notes that sound, by channel and key.
    pub on: Seq<Option<(u64, u8)>>,
    pub tempos: Seq<(u64, u32)>,
}

pub open spec fn silence() -> Seq<Option<(u64, u8)>> {
    Seq::new(4096, |i: int| None)
}

/// A meta event whose type stands at `i + 1`.
pub open spec fn meta_event(b: Seq<u8>, s: Reading, tick: u64, i: nat) -> Result<
    Reading,
    MidiFault,
> {
    if i + 1 >= b.len() {
        Err(MidiFault::Truncated)
    } else {
        match vlq_at(b, i + 2) {
            None => Err(MidiFault::Truncated),
            Some((ln, j)) => if j + ln > b.len() {
                Err(MidiFault::Truncated)
            } else {
                let data = b.subrange(j as int, (j + ln) as int);
                let now = Reading { at: j + ln, tick, ..s };
                if b[(i + 1) as int] == 0x03 {
                    Ok(
                        Reading {
                            track: TrackView { name: text::trim(lossy_text(data)), ..s.track },
                            ..now
                        },
                    )
                } else if b[(i + 1) as int] == 0x51 && ln == 3 {
                    Ok(
                        Reading {
                            tempos: with_tempo(
                                s.tempos,
                                tick,
                                (data[0] * 0x1_0000 + data[1] * 0x100 + data[2]) as u32,
                            ),
                            ..now
                        },
                    )
                } else {
                    Ok(now)
                }
            },
        }
    }
}

/// A block of bytes that is passed over; its length stands at `i + 1`.
pub open spec fn skipped(b: Seq<u8>, s: Reading, tick: u64, i: nat) -> Result<Reading, MidiFault> {
    match vlq_at(b, i + 1) {
        None => Err(MidiFault::Truncated),
        Some((ln, j)) => Ok(
            Reading {
                at: if j + ln > b.len() {
                    b.len()
                } else {
                    j + ln
                },
                tick,
                ..s
            },
        ),
    }
}

/// What a channel message does to the track.
pub open spec fn message(s: Reading, tick: u64, status: u8, a: u8, v: u8) -> Reading {
    let kind = status / 16;
    let ch = (status % 16) as u8;
    let slot = ch * 256 + a;
    let channels = if (kind == 8 || kind == 9) && !s.track.channels.contains(ch) {
        s.track.channels.push(ch)
    } else {
        s.track.channels
    };
    let heard = Reading { track: TrackView { channels, ..s.track }, ..s };
    if kind == 9 && v > 0 {
        Reading { on: s.on.update(slot, Some((tick, v))), ..heard }
    } else if kind == 8 || kind == 9 {
        match s.on[slot] {
            None => heard,
            Some((t0, vel)) => Reading {
                on: s.on.update(slot, None),
                track: TrackView {
                    notes: with_note(
                        s.track.notes,
                        MidiNote {
                            tick: t0,
                            len: if tick > t0 {
                                (tick - t0) as u64
                            } else {
                                1
                            },
                            key: a,
                            vel,
                        },
                    ),
                    ..heard.track
                },
                ..heard
            },
        }
    } else {
        heard
    }
}

/// A channel message at `i`, with running status.
pub open spec fn channel_event(b: Seq<u8>, s: Reading, tick: u64, i: nat) -> Result<
    Reading,
    MidiFault,
> {
    let fresh = b[i as int] >= 0x80;
    let running = if fresh {
        Some(b[i as int])
    } else {
        s.running
    };
    let j = if fresh {
        i + 1
    } else {
        i
    };
    match running {
        None => Err(MidiFault::NoStatus),
        Some(status) => {
            let short = status / 16 == 0xC || status / 16 == 0xD;
            let e = if short {
                j + 1
            } else {
                j + 2
            };
            if e > b.len() {
                Err(MidiFault::Truncated)
            } else {
                Ok(
                    message(
                        Reading { at: e, tick, running, ..s },
                        tick,
                        status,
                        b[j as int],
                        if short {
                            0
                        } else {
                            b[(j + 1) as int]
                        },
                    ),
                )
            }
        },
    }
}

/// One event: how long after the last, and what.
pub open spec fn event(b: Seq<u8>, s: Reading) -> Result<Reading, MidiFault> {
    match vlq_at(b, s.at) {
        None => Err(MidiFault::Truncated),
        Some((dt, i)) => if s.tick + dt > u64::MAX {
            Err(MidiFault::TooLate)
        } else if i >= b.len() {
            Err(MidiFault::Truncated)
        } else {
            let tick = (s.tick + dt) as u64;
            if b[i as int] == 0xFF {
                meta_event(b, s, tick, i)
            } else if b[i as int] == 0xF0 || b[i as int] == 0xF7 {
                skipped(b, s, tick, i)
            } else {
                channel_event(b, s, tick, i)
            }
        },
    }
}

pub proof fn lemma_event_advances(b: Seq<u8>, s: Reading)
    ensures
        event(b, s) is Ok ==> s.at < event(b, s)->Ok_0.at <= b.len(),
{
    lemma_vlq(b, s.at, 0);
    if let Some((dt, i)) = vlq_at(b, s.at) {
        lemma_vlq(b, i + 1, 0);
        lemma_vlq(b, i + 2, 0);
    }
}

/// All events from where the reading stands.
pub open spec fn events(b: Seq<u8>, s: Reading) -> Result<Reading, MidiFault>
    decreases b.len() - s.at,
{
    if s.at >= b.len() {
        Ok(s)
    } else {
        match event(b, s) {
            Err(e) => Err(e),
            Ok(t) => {
                proof {
                    lemma_event_advances(b, s);
                }
                events(b, t)
            },
        }
    }
}

/// A track while it is read.
struct Reader {
    at: usize,
    tick: u64,
    running: Option<u8>,
    track: MidiTrack,
    on: Vec<Option<(u64, u8)>>,
    tempos: Vec<(u64, u32)>,
}

impl View for Reader {
    type V = Reading;

    closed spec fn view(&self) -> Reading {
        Reading {
            at: self.at as nat,
            tick: self.tick,
            running: self.running,
            track: self.track@,
            on: self.on@,
            tempos: self.tempos@,
        }
    }
}

/// Whether a reader's result and what it leaves are the wanted ones.
pub open spec fn reads(r: Result<(), MidiFault>, now: Reading, want: Result<Reading, MidiFault>) -> bool {
    match r {
        Ok(_) => want == Ok::<Reading, MidiFault>(now),
        Err(e) => want == Err::<Reading, MidiFault>(e),
    }
}

impl Reader {
    fn meta(&mut self, b: &[u8], tick: u64, i: usize) -> (r: Result<(), MidiFault>)
        requires
            i < b@.len(),
            old(self).on@.len() == 4096,
        ensures
            reads(r, final(self)@, meta_event(b@, old(self)@, tick, i as nat)),
            final(self).on@.len() == 4096,
    {
        if i >= b.len() - 1 {
            return Err(MidiFault::Truncated);
        }
        let typ: u8 = b[i + 1];
        if i + 1 == b.len() - 1 {
            assert(vlq_at(b@, (i + 2) as nat) is None);
            return Err(MidiFault::Truncated);
        }
        let (ln, j): (u64, usize) = match vlq(b, i + 2) {
            Some(p) => p,
            None => {
                return Err(MidiFault::Truncated);
            },
        };
        if ln > (b.len() - j) as u64 {
            return Err(MidiFault::Truncated);
        }
        let e: usize = j + ln as usize;
        let data: &[u8] = vstd::slice::slice_subrange(b, j, e);
        self.at = e;
        self.tick = tick;
        if typ == 0x03 {
            let raw: Vec<char> = text::chars_of(from_lossy(data).as_str());
            self.track.name = text::string_of(text::trimmed(raw.as_slice()));
        } else if typ == 0x51 && ln == 3 {
            let us: u32 = data[0] as u32 * 0x1_0000 + data[1] as u32 * 0x100 + data[2] as u32;
            add_tempo(&mut self.tempos, tick, us);
        }
        Ok(())
    }

    fn skip(&mut self, b: &[u8], tick: u64, i: usize) -> (r: Result<(), MidiFault>)
        requires
            i < b@.len(),
            old(self).on@.len() == 4096,
        ensures
            reads(r, final(self)@, skipped(b@, old(self)@, tick, i as nat)),
            final(self).on@.len() == 4096,
    {
        let n: usize = b.len();
        match vlq(b, i + 1) {
            None => Err(MidiFault::Truncated),
            Some((ln, j)) => {
                self.tick = tick;
                self.at = if ln > (n - j) as u64 {
                    n
                } else {
                    j + ln as usize
                };
                Ok(())
            },
        }
    }

    fn hears(&self, ch: u8) -> (r: bool)
        ensures
            r == self@.track.channels.contains(ch),
    {
        let mut i: usize = 0;
        while i < self.track.channels.len()
            invariant
                i <= self.track.channels@.len(),
                forall|k: int| 0 <= k < i ==> #[trigger] self.track.channels@[k] != ch,
            decreases self.track.channels@.len() - i,
        {
            if self.track.channels[i] == ch {
                assert(self@.track.channels[i as int] == ch);
                return true;
            }
            i += 1;
        }
        false
    }

    fn message(&mut self, status: u8, a: u8, v: u8)
        requires
            old(self).on@.len() == 4096,
        ensures
            final(self)@ == message(old(self)@, old(self)@.tick, status, a, v),
            final(self).on@.len() == 4096,
    {
        let ghost before = self@;
        let kind: u8 = status / 16;
        let ch: u8 = status % 16;
        let slot: usize = ch as usize * 256 + a as usize;
        if (kind == 8 || kind == 9) && !self.hears(ch) {
            self.track.channels.push(ch);
        }
        if kind == 9 && v > 0 {
            self.on[slot] = Some((self.tick, v));
        } else if kind == 8 || kind == 9 {
            if let Some((t0, vel)) = self.on[slot] {
                self.on[slot] = None;
                let len: u64 = if self.tick > t0 {
                    self.tick - t0
                } else {
                    1
                };
                add_note(&mut self.track.notes, MidiNote { tick: t0, len, key: a, vel });
            }
        }
        assert(self@ =~= message(before, before.tick, status, a, v));
    }

    fn channel(&mut self, b: &[u8], tick: u64, i: usize) -> (r: Result<(), MidiFault>)
        requires
            i < b@.len(),
            old(self).on@.len() == 4096,
        ensures
            reads(r, final(self)@, channel_event(b@, old(self)@, tick, i as nat)),
            final(self).on@.len() == 4096,
    {
        let first: u8 = b[i];
        let mut j: usize = i;
        if first >= 0x80 {
            self.running = Some(first);
            j = i + 1;
        }
        let status: u8 = match self.running {
            Some(s) => s,
            None => {
                return Err(MidiFault::NoStatus);
            },
        };
        let short: bool = status / 16 == 0xC || status / 16 == 0xD;
        let need: usize = if short {
            1
        } else {
            2
        };
        if need > b.len() - j {
            return Err(MidiFault::Truncated);
        }
        let a: u8 = b[j];
        let v: u8 = if short {
            0
        } else {
            b[j + 1]
        };
        self.at = j + need;
        self.tick = tick;
        self.message(status, a, v);
        Ok(())
    }

    fn event(&mut self, b: &[u8]) -> (r: Result<(), MidiFault>)
        requires
            old(self).on@.len() == 4096,
        ensures
            reads(r, final(self)@, event(b@, old(self)@)),
            final(self).on@.len() == 4096,
    {
        let (dt, i): (u64, usize) = match vlq(b, self.at) {
            Some(p) => p,
            None => {
                return Err(MidiFault::Truncated);
            },
        };
        if dt > u64::MAX - self.tick {
            return Err(MidiFault::TooLate);
        }
        if i >= b.len() {
            return Err(MidiFault::Truncated);
        }
        let tick: u64 = self.tick + dt;
        let st: u8 = b[i];
        if st == 0xFF {
            self.meta(b, tick, i)
        } else if st == 0xF0 || st == 0xF7 {
            self.skip(b, tick, i)
        } else {
            self.channel(b, tick, i)
        }
    }

    fn events(&mut self, b: &[u8]) -> (r: Result<(), MidiFault>)
        requires
            old(self).on@.len() == 4096,
        ensures
            reads(r, final(self)@, events(b@, old(self)@)),
    {
        let ghost want = events(b@, self@);
        while self.at < b.len()
            invariant
                self.on@.len() == 4096,
                want == events(b@, self@),
                want == events(b@, old(self)@),
            decreases b@.len() - self.at,
        {
            proof {
                lemma_event_advances(b@, self@);
            }
            match self.event(b) {
                Ok(_) => {},
                Err(e) => {
                    return Err(e);
                },
            }
        }
        Ok(())
    }
}

// ---------------------------------------------------------------- chunks

pub open spec fn tag_at(b: Seq<u8>, pos: int, a: u8, c: u8, d: u8, e: u8) -> bool {
    &&& pos + 4 <= b.len()
    &&& b[pos] == a
    &&& b[pos + 1] == c
    &&& b[pos + 2] == d
    &&& b[pos + 3] == e
}

/// A big-endian word.
pub open spec fn word_at(b: Seq<u8>, pos: int) -> nat {
    (b[pos] * 0x100_0000 + b[pos + 1] * 0x1_0000 + b[pos + 2] * 0x100 + b[pos + 3]) as nat
}

/// Tracks and tempos after `n` more chunks from `pos` on.
pub open spec fn chunks(
    b: Seq<u8>,
    n: nat,
    pos: nat,
    tempos: Seq<(u64, u32)>,
    tracks: Seq<TrackView>,
) -> Result<(Seq<(u64, u32)>, Seq<TrackView>), MidiFault>
    decreases n,
{
    if n == 0 {
        Ok((tempos, tracks))
    } else if pos + 8 > b.len() || !tag_at(b, pos as int, 0x4D, 0x54, 0x72, 0x6B) {
        Err(MidiFault::NoTrackChunk(pos as u64))
    } else {
        let len = word_at(b, pos as int + 4);
        if pos + 8 + len > b.len() {
            Err(MidiFault::TruncatedTrack)
        } else {
            match events(
                b.subrange(pos as int + 8, (pos + 8 + len) as int),
                Reading {
                    at: 0,
                    tick: 0,
                    running: None,
                    track: TrackView {
                        name: Seq::empty(),
                        notes: Seq::empty(),
                        channels: Seq::empty(),
                    },
                    on: silence(),
                    tempos,
                },
            ) {
                Err(e) => Err(e),
                Ok(s) => chunks(
                    b,
                    (n - 1) as nat,
                    pos + 8 + len,
                    s.tempos,
                    tracks.push(s.track),
                ),
            }
        }
    }
}

/// The file that bytes hold.
pub open spec fn midi_file(b: Seq<u8>) -> Result<MidiView, MidiFault> {
    if b.len() < 14 || !tag_at(b, 0, 0x4D, 0x54, 0x68, 0x64) {
        Err(MidiFault::NotMidi)
    } else if b[12] >= 0x80 {
        Err(MidiFault::SmpteDivision)
    } else {
        match chunks(
            b,
            (b[10] * 0x100 + b[11]) as nat,
            8 + word_at(b, 4),
            Seq::empty(),
            Seq::empty(),
        ) {
            Err(e) => Err(e),
            Ok((tempos, tracks)) => Ok(
                MidiView {
                    ticks_per_quarter: (b[12] * 0x100 + b[13]) as u16,
                    tempos,
                    tracks,
                },
            ),
        }
    }
}

fn word(b: &[u8], pos: usize) -> (r: u64)
    requires
        pos + 4 <= b@.len(),
    ensures
        r == word_at(b@, pos as int),
        r <= u32::MAX,
{
    b[pos] as u64 * 0x100_0000 + b[pos + 1] as u64 * 0x1_0000 + b[pos + 2] as u64 * 0x100 + b[pos
        + 3] as u64
}

fn is_tag(b: &[u8], pos: usize, a: u8, c: u8, d: u8, e: u8) -> (r: bool)
    requires
        pos + 4 <= b@.len(),
    ensures
        r == tag_at(b@, pos as int, a, c, d, e),
{
    b[pos] == a && b[pos + 1] == c && b[pos + 2] == d && b[pos + 3] == e
}

fn no_notes() -> (r: Vec<Option<(u64, u8)>>)
    ensures
        r@ == silence(),
{
    let mut v: Vec<Option<(u64, u8)>> = Vec::new();
    for i in 0..4096usize
        invariant
            v@.len() == i,
            forall|k: int| 0 <= k < i ==> #[trigger] v@[k] is None,
    {
        v.push(None);
    }
    assert(v@ =~= silence());
    v
}

/// Reads a Standard MIDI File.
pub fn parse_midi(bytes: &[u8]) -> (r: Result<Midi, MidiFault>)
    ensures
        match r {
            Ok(m) => midi_file(bytes@) == Ok::<MidiView, MidiFault>(m@),
            Err(e) => midi_file(bytes@) == Err::<MidiView, MidiFault>(e),
        },
{
    let n: usize = bytes.len();
    if n < 14 || !is_tag(bytes, 0, 0x4D, 0x54, 0x68, 0x64) {
        return Err(MidiFault::NotMidi);
    }
    if bytes[12] >= 0x80 {
        return Err(MidiFault::SmpteDivision);
    }
    let ntrk: u32 = bytes[10] as u32 * 0x100 + bytes[11] as u32;
    let div: u16 = bytes[12] as u16 * 0x100 + bytes[13] as u16;
    let mut pos: u64 = 8 + word(bytes, 4);
    let mut tempos: Vec<(u64, u32)> = Vec::new();
    let mut tracks: Vec<MidiTrack> = Vec::new();
    let mut left: u32 = ntrk;
    let ghost want = chunks(bytes@, ntrk as nat, pos as nat, Seq::empty(), Seq::empty());
    assert(track_views(tracks@) =~= Seq::<TrackView>::empty());
    while left > 0
        invariant
            n == bytes@.len(),
            pos <= n || pos <= 0x1_0000_0008,
            want == chunks(bytes@, left as nat, pos as nat, tempos@, track_views(tracks@)),
            midi_file(bytes@) is Err ==> midi_file(bytes@) == Err::<MidiView, MidiFault>(
                want->Err_0,
            ),
            want is Err ==> midi_file(bytes@) == Err::<MidiView, MidiFault>(want->Err_0),
        decreases left,
    {
        if (n as u64) < 8 || pos > n as u64 - 8 || !is_tag(
            bytes,
            pos as usize,
            0x4D,
            0x54,
            0x72,
            0x6B,
        ) {
            return Err(MidiFault::NoTrackChunk(pos));
        }
        let p: usize = pos as usize;
        let len: u64 = word(bytes, p + 4);
        if len > n as u64 - 8 - pos {
            return Err(MidiFault::TruncatedTrack);
        }
        let body: &[u8] = vstd::slice::slice_subrange(bytes, p + 8, p + 8 + len as usize);
        let mut reader: Reader = Reader {
            at: 0,
            tick: 0,
            running: None,
            track: MidiTrack { name: String::new(), notes: Vec::new(), channels: Vec::new() },
            on: no_notes(),
            tempos,
        };
        assert(reader@.track =~= TrackView {
            name: Seq::empty(),
            notes: Seq::empty(),
            channels: Seq::empty(),
        });
        match reader.events(body) {
            Ok(_) => {},
            Err(e) => {
                return Err(e);
            },
        }
        tempos = reader.tempos;
        let ghost before = tracks@;
        let ghost tv = reader.track@;
        tracks.push(reader.track);
        assert(track_views(tracks@) =~= track_views(before).push(tv));
        pos = pos + 8 + len;
        left -= 1;
    }
    Ok(Midi { ticks_per_quarter: div, tempos, tracks })
}

} // verus!
