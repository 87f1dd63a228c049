//! A phrase as a Standard MIDI File: a conductor track with the tempo, and a
//! track for each tone channel. Noise goes out on the drum channel.

use vstd::prelude::*;

use crate::import::smf;
use crate::song::{Cell, Phrase};
use crate::text;

verus! {

/// Ticks in a quarter note.
pub const PPQN: u16 = 96;

/// Ticks in a step.
pub const TICKS_PER_STEP: u32 = 24;

/// Channels that are written: the pulses, the triangle and noise.
pub const TRACKS: usize = 4;

/// The drum that stands for a noise note: low ones are a kick, middle ones a
/// snare and high ones a hat.
pub open spec fn gm_drum(pitch: u8) -> u8 {
    if pitch <= 44 {
        36
    } else if pitch <= 54 {
        38
    } else {
        42
    }
}

pub fn noi_to_gm_drum(pitch: u8) -> (r: u8)
    ensures
        r == gm_drum(pitch),
{
    if pitch <= 44 {
        36
    } else if pitch <= 54 {
        38
    } else {
        42
    }
}

// ---------------------------------------------------------------- quantities

/// All but the last byte of a variable-length quantity.
pub open spec fn vlq_head(m: nat) -> Seq<u8>
    decreases m,
{
    if m == 0 {
        Seq::empty()
    } else {
        vlq_head(m / 128).push((m % 128 + 128) as u8)
    }
}

/// A variable-length quantity: seven bits a byte, highest first, the top bit
/// set on all but the last.
pub open spec fn vlq_bytes(n: nat) -> Seq<u8> {
    vlq_head(n / 128).push((n % 128) as u8)
}

fn put_head(buf: &mut Vec<u8>, m: u32)
    ensures
        final(buf)@ == old(buf)@ + vlq_head(m as nat),
    decreases m,
{
    let ghost before = buf@;
    if m > 0 {
        put_head(buf, m / 128);
        buf.push((m % 128 + 128) as u8);
    }
    assert(buf@ =~= before + vlq_head(m as nat));
}

pub fn write_vlq(buf: &mut Vec<u8>, n: u32)
    ensures
        final(buf)@ == old(buf)@ + vlq_bytes(n as nat),
{
    let ghost before = buf@;
    put_head(buf, n / 128);
    buf.push((n % 128) as u8);
    assert(buf@ =~= before + vlq_bytes(n as nat));
}

proof fn lemma_head_read(b: Seq<u8>, i: nat, m: nat)
    requires
        m < 0x1_0000_0000,
        i + vlq_head(m).len() <= b.len(),
        b.subrange(i as int, (i + vlq_head(m).len()) as int) == vlq_head(m),
    ensures
        smf::vlq_from(b, i, 0) == smf::vlq_from(b, i + vlq_head(m).len(), m),
    decreases m,
{
    if m > 0 {
        let h = vlq_head(m / 128);
        let all = vlq_head(m);
        assert(all.len() == h.len() + 1);
        assert(b.subrange(i as int, (i + h.len()) as int) =~= h) by {
            assert forall|j: int| 0 <= j < h.len() implies b.subrange(i as int, (i + h.len()) as int)[j]
                == h[j] by {
                assert(b.subrange(i as int, (i + all.len()) as int)[j] == all[j]);
            }
        }
        lemma_head_read(b, i, m / 128);
        let k = i + h.len();
        assert(b.subrange(i as int, (i + all.len()) as int)[h.len() as int] == all[h.len() as int]);
        assert(b[k as int] == (m % 128 + 128) as u8);
        assert(b[k as int] % 128 == m % 128);
        assert((m / 128 * 128) % 0x1_0000_0000_0000_0000 == m / 128 * 128);
    }
}

/// Reading gives back what writing wrote: a quantity written anywhere in a
/// file is read as itself, and reading ends where it ends.
pub proof fn law_quantity_round_trip(before: Seq<u8>, n: u32, after: Seq<u8>)
    ensures
        smf::vlq_at(before + vlq_bytes(n as nat) + after, before.len()) == Some(
            (n as nat, before.len() + vlq_bytes(n as nat).len()),
        ),
{
    let b = before + vlq_bytes(n as nat) + after;
    let h = vlq_head(n as nat / 128);
    let i = before.len();
    assert(b.subrange(i as int, (i + h.len()) as int) =~= h);
    lemma_head_read(b, i, n as nat / 128);
    assert(b[(i + h.len()) as int] == (n % 128) as u8);
    assert((n as nat / 128 * 128) % 0x1_0000_0000_0000_0000 == n as nat / 128 * 128);
}

proof fn lemma_head_len(m: nat, k: nat)
    requires
        k <= 4,
        k == 0 ==> m == 0,
        k == 1 ==> m < 128,
        k == 2 ==> m < 0x4000,
        k == 3 ==> m < 0x20_0000,
        k == 4 ==> m < 0x1000_0000,
    ensures
        vlq_head(m).len() <= k,
    decreases k,
{
    if m > 0 {
        lemma_head_len(m / 128, (k - 1) as nat);
    }
}

// ---------------------------------------------------------------- events

#[derive(Clone, Copy, Debug, PartialEq, Eq, Structural)]
pub enum EventKind {
    NoteOn { channel: u8, note: u8, vel: u8 },
    NoteOff { channel: u8, note: u8 },
    EndOfTrack,
}

#[derive(Clone, Copy, Debug, PartialEq, Eq, Structural)]
pub struct TrackEvent {
    pub tick: u32,
    pub kind: EventKind,
}

/// The MIDI channel of a track.
pub open spec fn midi_channel(ch: int) -> u8 {
    if ch == 3 {
        9
    } else {
        ch as u8
    }
}

/// How hard a cell's note is struck.
pub open spec fn velocity(vol: u8) -> u8 {
    if vol == 0 {
        100
    } else if vol >= 15 {
        127
    } else {
        (vol as int * 127 / 15) as u8
    }
}

pub open spec fn midi_note(n: u8, ch: int) -> u8 {
    if ch == 3 {
        gm_drum(n)
    } else {
        n
    }
}

/// A step's events: its note on, and off a step later.
pub open spec fn step_events(x: Cell, ch: int, tick: u32) -> Seq<TrackEvent> {
    match x.note {
        None => Seq::empty(),
        Some(n) => seq![
            TrackEvent {
                tick,
                kind: EventKind::NoteOn {
                    channel: midi_channel(ch),
                    note: midi_note(n, ch),
                    vel: velocity(x.vol),
                },
            },
            TrackEvent {
                tick: (tick + TICKS_PER_STEP) as u32,
                kind: EventKind::NoteOff { channel: midi_channel(ch), note: midi_note(n, ch) },
            },
        ],
    }
}

/// The events of the first `k` steps, the phrase played over and over.
pub open spec fn channel_events(phrase: Seq<Seq<Cell>>, ch: int, k: nat) -> Seq<TrackEvent>
    decreases k,
{
    if k == 0 {
        Seq::empty()
    } else {
        channel_events(phrase, ch, (k - 1) as nat) + step_events(
            phrase[(k - 1) % 16][ch],
            ch,
            ((k - 1) * 24) as u32,
        )
    }
}

/// A track: its events, and an end at the last of them.
pub open spec fn track_events(phrase: Seq<Seq<Cell>>, ch: int, loops: nat) -> Seq<TrackEvent> {
    let e = channel_events(phrase, ch, 16 * loops);
    e.push(
        TrackEvent {
            tick: if e.len() > 0 {
                e.last().tick
            } else {
                0
            },
            kind: EventKind::EndOfTrack,
        },
    )
}

/// Where an event comes among others of its tick: ends before starts.
pub open spec fn rank(k: EventKind) -> int {
    match k {
        EventKind::NoteOff { .. } => 0,
        EventKind::NoteOn { .. } => 1,
        EventKind::EndOfTrack => 9,
    }
}

/// Events come in order of time, and on one tick a note ends before the next
/// starts, so that a note struck again is not cut off.
pub proof fn law_events_are_in_order(phrase: Seq<Seq<Cell>>, ch: int, k: nat, i: int, j: int)
    requires
        k * 24 <= u32::MAX,
        0 <= i < j < channel_events(phrase, ch, k).len(),
    ensures
        ({
            let a = channel_events(phrase, ch, k)[i];
            let b = channel_events(phrase, ch, k)[j];
            a.tick < b.tick || (a.tick == b.tick && rank(a.kind) <= rank(b.kind))
        }),
    decreases k,
{
    let before = channel_events(phrase, ch, (k - 1) as nat);
    if j < before.len() {
        law_events_are_in_order(phrase, ch, (k - 1) as nat, i, j);
    } else if i < before.len() {
        lemma_ticks(phrase, ch, (k - 1) as nat, i);
    }
}

proof fn lemma_ticks(phrase: Seq<Seq<Cell>>, ch: int, k: nat, i: int)
    requires
        k * 24 <= u32::MAX,
        0 <= i < channel_events(phrase, ch, k).len(),
    ensures
        channel_events(phrase, ch, k)[i].tick <= k * 24,
        channel_events(phrase, ch, k)[i].tick == k * 24 ==> rank(
            channel_events(phrase, ch, k)[i].kind,
        ) == 0,
    decreases k,
{
    let before = channel_events(phrase, ch, (k - 1) as nat);
    if i < before.len() {
        lemma_ticks(phrase, ch, (k - 1) as nat, i);
    }
}

fn find_velocity(vol: u8) -> (r: u8)
    ensures
        r == velocity(vol),
{
    if vol == 0 {
        100
    } else if vol >= 15 {
        127
    } else {
        (vol as u32 * 127 / 15) as u8
    }
}

/// One channel's events, and their end.
pub fn collect_channel_events(phrase: &Phrase, ch: usize, loops: u32) -> (r: Vec<TrackEvent>)
    requires
        ch < TRACKS,
        loops * 384 <= u32::MAX,
    ensures
        r@ == track_events(phrase@, ch as int, loops as nat),
        r@.len() <= 32 * loops + 1,
{
    let channel: u8 = if ch == 3 {
        9
    } else {
        ch as u8
    };
    let mut out: Vec<TrackEvent> = Vec::new();
    let steps: u32 = 16 * loops;
    for k in 0..steps
        invariant
            ch < TRACKS,
            steps == 16 * loops,
            loops * 384 <= u32::MAX,
            channel == midi_channel(ch as int),
            out@ == channel_events(phrase@, ch as int, k as nat),
            out@.len() <= 2 * k,
    {
        let x: Cell = phrase.at((k % 16) as usize, ch);
        let ghost before = out@;
        let tick: u32 = k * 24;
        if let Some(n) = x.note {
            let note: u8 = if ch == 3 {
                noi_to_gm_drum(n)
            } else {
                n
            };
            out.push(
                TrackEvent {
                    tick,
                    kind: EventKind::NoteOn { channel, note, vel: find_velocity(x.vol) },
                },
            );
            out.push(
                TrackEvent {
                    tick: tick + TICKS_PER_STEP,
                    kind: EventKind::NoteOff { channel, note },
                },
            );
        }
        assert(out@ =~= before + step_events(x, ch as int, tick));
    }
    let last: u32 = if out.len() > 0 {
        out[out.len() - 1].tick
    } else {
        0
    };
    out.push(TrackEvent { tick: last, kind: EventKind::EndOfTrack });
    out
}

// ---------------------------------------------------------------- bytes

/// A number in four bytes, highest first.
pub open spec fn be32(n: nat) -> Seq<u8> {
    seq![
        (n / 0x100_0000 % 0x100) as u8,
        (n / 0x1_0000 % 0x100) as u8,
        (n / 0x100 % 0x100) as u8,
        (n % 0x100) as u8,
    ]
}

fn put_be32(out: &mut Vec<u8>, n: u32)
    ensures
        final(out)@ == old(out)@ + be32(n as nat),
{
    let ghost before = out@;
    out.push((n / 0x100_0000 % 0x100) as u8);
    out.push((n / 0x1_0000 % 0x100) as u8);
    out.push((n / 0x100 % 0x100) as u8);
    out.push((n % 0x100) as u8);
    assert(out@ =~= before + be32(n as nat));
}

fn put_bytes(out: &mut Vec<u8>, v: &[u8])
    ensures
        final(out)@ == old(out)@ + v@,
{
    let ghost before = out@;
    for i in 0..v.len()
        invariant
            out@ == before + v@.take(i as int),
    {
        out.push(v[i]);
        assert(out@ =~= before + v@.take(i + 1));
    }
    assert(out@ =~= before + v@);
}

/// An event's own bytes.
pub open spec fn kind_bytes(k: EventKind) -> Seq<u8> {
    match k {
        EventKind::NoteOn { channel, note, vel } => seq![
            (0x90 + channel % 16) as u8,
            (note % 128) as u8,
            (vel % 128) as u8,
        ],
        EventKind::NoteOff { channel, note } => seq![
            (0x80 + channel % 16) as u8,
            (note % 128) as u8,
            64u8,
        ],
        EventKind::EndOfTrack => seq![0xFFu8, 0x2F, 0x00],
    }
}

/// Ticks since the event before.
pub open spec fn delta(e: Seq<TrackEvent>, i: int) -> nat {
    if i == 0 {
        e[0].tick as nat
    } else if e[i].tick > e[i - 1].tick {
        (e[i].tick - e[i - 1].tick) as nat
    } else {
        0
    }
}

/// The first `k` events of a track.
pub open spec fn track_body(e: Seq<TrackEvent>, k: nat) -> Seq<u8>
    decreases k,
{
    if k == 0 {
        Seq::empty()
    } else {
        track_body(e, (k - 1) as nat) + vlq_bytes(delta(e, k - 1)) + kind_bytes(e[k - 1].kind)
    }
}

/// A chunk: its tag, its length and its bytes.
pub open spec fn track_chunk(body: Seq<u8>) -> Seq<u8> {
    seq![0x4Du8, 0x54, 0x72, 0x6B] + be32(body.len()) + body
}

/// Microseconds in a quarter note at a tempo: the single-precision quotient,
/// cut to a whole number. `x / 2^s` is sixty million, scaled up until the
/// quotient has 24 significant bits.
pub open spec fn quarter_from(x: nat, b: nat, scale: nat) -> nat
    decreases 0x100_0000 * b - x,
{
    if b == 0 || x == 0 || x / b >= 0x80_0000 {
        (text::rounded(x as int, b as int) / scale as int) as nat
    } else {
        proof {
            assert(x < 0x80_0000 * b) by (nonlinear_arith)
                requires
                    x / b < 0x80_0000,
                    b > 0,
            ;
        }
        quarter_from(2 * x, b, 2 * scale)
    }
}

/// Microseconds in a quarter note. Up to three beats per minute divide sixty
/// million exactly.
pub open spec fn quarter_us(bpm: u16) -> nat {
    let b = if bpm == 0 {
        1nat
    } else {
        bpm as nat
    };
    if b <= 3 {
        60_000_000nat / b
    } else {
        quarter_from(60_000_000, b, 1)
    }
}

fn find_quarter(bpm: u16) -> (r: u32)
    ensures
        r == quarter_us(bpm),
{
    let b: u64 = if bpm == 0 {
        1
    } else {
        bpm as u64
    };
    if b <= 3 {
        return (60_000_000 / b) as u32;
    }
    let mut x: u64 = 60_000_000;
    let mut scale: u64 = 1;
    assert(x < 0x100_0000 * b && scale <= x);
    while x / b < 0x80_0000
        invariant
            4 <= b <= 65_535,
            0 < x < 0x100_0000 * b,
            0 < scale <= x,
            quarter_us(bpm) == quarter_from(x as nat, b as nat, scale as nat),
        decreases 0x100_0000 * b - x,
    {
        assert(x < 0x80_0000 * b) by (nonlinear_arith)
            requires
                x / b < 0x80_0000,
                b > 0,
        ;
        x = x * 2;
        scale = scale * 2;
    }
    let q: u64 = x / b;
    let rem: u64 = x % b;
    let m: u64 = if 2 * rem > b || (2 * rem == b && q % 2 == 1) {
        q + 1
    } else {
        q
    };
    assert(q < 0x100_0000) by (nonlinear_arith)
        requires
            q == x / b,
            x < 0x100_0000 * b,
            b > 0,
    ;
    assert(m / scale <= m) by (nonlinear_arith)
        requires
            scale > 0,
            m >= 0,
    ;
    (m / scale) as u32
}

/// The conductor track: the tempo, in three bytes, and an end.
pub open spec fn conductor_body(bpm: u16) -> Seq<u8> {
    let us = quarter_us(bpm);
    seq![
        0x00u8,
        0xFF,
        0x51,
        0x03,
        (us / 0x1_0000 % 0x100) as u8,
        (us / 0x100 % 0x100) as u8,
        (us % 0x100) as u8,
        0x00,
        0xFF,
        0x2F,
        0x00,
    ]
}

/// The file header: format 1, the conductor and the tracks, 96 ticks a
/// quarter.
pub open spec fn file_header() -> Seq<u8> {
    seq![0x4Du8, 0x54, 0x68, 0x64, 0, 0, 0, 6, 0, 1, 0, 5, 0, 96]
}

/// The first `c` tracks.
pub open spec fn tracks(phrase: Seq<Seq<Cell>>, loops: nat, c: nat) -> Seq<u8>
    decreases c,
{
    if c == 0 {
        Seq::empty()
    } else {
        let e = track_events(phrase, c - 1, loops);
        tracks(phrase, loops, (c - 1) as nat) + track_chunk(track_body(e, e.len()))
    }
}

/// The file of a phrase played a number of times.
pub open spec fn midi_bytes(phrase: Seq<Seq<Cell>>, bpm: u16, loops: u32) -> Seq<u8> {
    file_header() + track_chunk(conductor_body(bpm)) + tracks(
        phrase,
        if loops == 0 {
            1
        } else {
            loops as nat
        },
        TRACKS as nat,
    )
}

fn put_kind(out: &mut Vec<u8>, k: EventKind)
    ensures
        final(out)@ == old(out)@ + kind_bytes(k),
{
    let ghost before = out@;
    match k {
        EventKind::NoteOn { channel, note, vel } => {
            out.push(0x90 + channel % 16);
            out.push(note % 128);
            out.push(vel % 128);
        },
        EventKind::NoteOff { channel, note } => {
            out.push(0x80 + channel % 16);
            out.push(note % 128);
            out.push(64);
        },
        EventKind::EndOfTrack => {
            out.push(0xFF);
            out.push(0x2F);
            out.push(0x00);
        },
    }
    assert(out@ =~= before + kind_bytes(k));
}

fn put_chunk(out: &mut Vec<u8>, body: &Vec<u8>)
    requires
        body@.len() <= u32::MAX,
    ensures
        final(out)@ == old(out)@ + track_chunk(body@),
{
    let ghost before = out@;
    out.push(0x4D);
    out.push(0x54);
    out.push(0x72);
    out.push(0x6B);
    put_be32(out, body.len() as u32);
    put_bytes(out, body.as_slice());
    assert(out@ =~= before + track_chunk(body@));
}

fn put_track(out: &mut Vec<u8>, e: &Vec<TrackEvent>)
    requires
        8 * e@.len() <= u32::MAX,
    ensures
        final(out)@ == old(out)@ + track_chunk(track_body(e@, e@.len())),
{
    let mut body: Vec<u8> = Vec::new();
    let mut last: u32 = 0;
    for k in 0..e.len()
        invariant
            8 * e@.len() <= u32::MAX,
            body@ == track_body(e@, k as nat),
            body@.len() <= 8 * k,
            last == (if k == 0 {
                0
            } else {
                e@[k - 1].tick
            }),
    {
        let x: TrackEvent = e[k];
        let d: u32 = if x.tick > last {
            x.tick - last
        } else {
            0
        };
        proof {
            lemma_head_len(d as nat / 128, 4);
        }
        let ghost before = body@;
        write_vlq(&mut body, d);
        put_kind(&mut body, x.kind);
        assert(body@ =~= track_body(e@, (k + 1) as nat));
        last = x.tick;
    }
    put_chunk(out, &body);
}

fn put_conductor(out: &mut Vec<u8>, bpm: u16)
    ensures
        final(out)@ == old(out)@ + track_chunk(conductor_body(bpm)),
{
    let us: u32 = find_quarter(bpm);
    let mut body: Vec<u8> = Vec::new();
    write_vlq(&mut body, 0);
    body.push(0xFF);
    body.push(0x51);
    body.push(0x03);
    body.push((us / 0x1_0000 % 0x100) as u8);
    body.push((us / 0x100 % 0x100) as u8);
    body.push((us % 0x100) as u8);
    write_vlq(&mut body, 0);
    body.push(0xFF);
    body.push(0x2F);
    body.push(0x00);
    assert(vlq_head(0) =~= Seq::<u8>::empty());
    assert(body@ =~= conductor_body(bpm));
    put_chunk(out, &body);
}

/// A phrase, played a number of times, as a MIDI file.
pub fn export_phrase_to_midi(phrase: &Phrase, bpm: u16, loops: u32) -> (r: Vec<u8>)
    requires
        loops * 384 <= u32::MAX,
    ensures
        r@ == midi_bytes(phrase@, bpm, loops),
{
    let times: u32 = if loops == 0 {
        1
    } else {
        loops
    };
    let mut out: Vec<u8> = Vec::new();
    let header: [u8; 14] = [0x4D, 0x54, 0x68, 0x64, 0, 0, 0, 6, 0, 1, 0, 5, 0, 96];
    put_bytes(&mut out, &header);
    assert(out@ =~= file_header());
    put_conductor(&mut out, bpm);
    let ghost base = out@;
    assert(out@ =~= base + tracks(phrase@, times as nat, 0));
    for c in 0..TRACKS
        invariant
            times * 384 <= u32::MAX,
            out@ == base + tracks(phrase@, times as nat, c as nat),
    {
        let e: Vec<TrackEvent> = collect_channel_events(phrase, c, times);
        put_track(&mut out, &e);
        assert(out@ =~= base + tracks(phrase@, times as nat, (c + 1) as nat));
    }
    out
}

// ---------------------------------------------------------------- reading back

/// The notes of a channel's first `k` steps, the phrase played over and over.
pub open spec fn phrase_notes(phrase: Seq<Seq<Cell>>, ch: int, k: nat) -> Seq<smf::MidiNote>
    decreases k,
{
    if k == 0 {
        Seq::empty()
    } else {
        let before = phrase_notes(phrase, ch, (k - 1) as nat);
        let x = phrase[(k - 1) % 16][ch];
        match x.note {
            None => before,
            Some(n) => before.push(
                smf::MidiNote {
                    tick: ((k - 1) * 24) as u64,
                    len: 24,
                    key: midi_note(n, ch),
                    vel: velocity(x.vol),
                },
            ),
        }
    }
}

/// The track that a reader finds for a channel's first `k` steps.
pub open spec fn heard_track(phrase: Seq<Seq<Cell>>, ch: int, k: nat) -> smf::TrackView {
    let notes = phrase_notes(phrase, ch, k);
    smf::TrackView {
        name: Seq::empty(),
        notes,
        channels: if notes.len() == 0 {
            Seq::empty()
        } else {
            seq![midi_channel(ch)]
        },
    }
}

/// What a reader finds in the file of a phrase: the tempo, an empty conductor
/// track, and the channels' notes. A tempo keeps its lowest 24 bits.
pub open spec fn heard_file(phrase: Seq<Seq<Cell>>, bpm: u16, loops: nat) -> smf::MidiView {
    smf::MidiView {
        ticks_per_quarter: PPQN,
        tempos: seq![(0u64, (quarter_us(bpm) % 0x100_0000) as u32)],
        tracks: seq![
            smf::TrackView { name: Seq::empty(), notes: Seq::empty(), channels: Seq::empty() },
            heard_track(phrase, 0, 16 * loops),
            heard_track(phrase, 1, 16 * loops),
            heard_track(phrase, 2, 16 * loops),
            heard_track(phrase, 3, 16 * loops),
        ],
    }
}

/// Whether the notes of all tone channels are keys that MIDI has.
pub open spec fn is_playable(phrase: Seq<Seq<Cell>>) -> bool {
    forall|i: int, c: int|
        0 <= i < 16 && 0 <= c < 3 ==> match (#[trigger] phrase[i][c]).note {
            Some(n) => n <= 127,
            None => true,
        }
}

proof fn lemma_body_prefix(e: Seq<TrackEvent>, j: nat, n: nat)
    requires
        j <= n <= e.len(),
    ensures
        track_body(e, j).len() <= track_body(e, n).len(),
        track_body(e, n).take(track_body(e, j).len() as int) == track_body(e, j),
    decreases n,
{
    let b = track_body(e, j);
    if j == n {
        assert(b.take(b.len() as int) =~= b);
    } else {
        lemma_body_prefix(e, j, (n - 1) as nat);
        let c = track_body(e, (n - 1) as nat);
        assert(track_body(e, n).take(b.len() as int) =~= c.take(b.len() as int));
    }
}

/// An event's time and bytes, found where the events before it end.
proof fn lemma_event_bytes(e: Seq<TrackEvent>, j: nat, n: nat)
    requires
        j < n <= e.len(),
    ensures
        ({
            let b = track_body(e, n);
            let at = track_body(e, j).len();
            let i = at + vlq_bytes(delta(e, j as int)).len();
            let k = kind_bytes(e[j as int].kind);
            &&& smf::vlq_at(b, at) == Some((delta(e, j as int), i))
            &&& at < i
            &&& i + 3 == track_body(e, j + 1).len()
            &&& i + 3 <= b.len()
            &&& b[i as int] == k[0]
            &&& b[i as int + 1] == k[1]
            &&& b[i as int + 2] == k[2]
        }),
{
    lemma_body_prefix(e, j + 1, n);
    let b = track_body(e, n);
    let c = track_body(e, j);
    let d = track_body(e, j + 1);
    let t = delta(e, j as int);
    let v = vlq_bytes(t);
    let k = kind_bytes(e[j as int].kind);
    assert(k.len() == 3);
    let after = k + b.skip(d.len() as int);
    assert(b =~= c + v + after) by {
        assert(b =~= b.take(d.len() as int) + b.skip(d.len() as int));
    }
    assert(t <= u32::MAX);
    law_quantity_round_trip(c, t as u32, after);
    let i = c.len() + v.len();
    assert(b[i as int] == after[0] && b[i as int + 1] == after[1] && b[i as int + 2] == after[2]);
}

proof fn lemma_note_goes_last(phrase: Seq<Seq<Cell>>, ch: int, k: nat)
    requires
        k * 24 <= u32::MAX,
    ensures
        phrase_notes(phrase, ch, k).len() > 0 ==> phrase_notes(phrase, ch, k).last().tick < k * 24,
    decreases k,
{
    if k > 0 {
        lemma_note_goes_last(phrase, ch, (k - 1) as nat);
    }
}

/// Ticks up to which the first `j` events reach.
spec fn clock(e: Seq<TrackEvent>, j: nat) -> u32 {
    if j == 0 {
        0
    } else {
        e[j - 1].tick
    }
}

/// A note's start, read.
proof fn lemma_start_read(
    e: Seq<TrackEvent>,
    j: nat,
    s: smf::Reading,
    channel: u8,
    note: u8,
    vel: u8,
    t: smf::Reading,
)
    requires
        j < e.len(),
        channel < 16,
        note <= 127,
        0 < vel <= 127,
        e[j as int].kind == (EventKind::NoteOn { channel, note, vel }),
        clock(e, j) <= e[j as int].tick,
        s.at == track_body(e, j).len(),
        s.tick == clock(e, j),
        s.track.channels == Seq::<u8>::empty() || s.track.channels == seq![channel],
        t == (smf::Reading {
            at: track_body(e, j + 1).len(),
            tick: e[j as int].tick as u64,
            running: Some((0x90 + channel) as u8),
            on: s.on.update(channel * 256 + note, Some((e[j as int].tick as u64, vel))),
            track: smf::TrackView { channels: seq![channel], ..s.track },
            ..s
        }),
    ensures
        smf::event(track_body(e, e.len()), s) == Ok::<smf::Reading, smf::MidiFault>(t),
{
    lemma_event_bytes(e, j, e.len());
    let on = (0x90 + channel) as u8;
    assert(on / 16 == 9 && on % 16 == channel);
    if s.track.channels.len() > 0 {
        assert(s.track.channels[0] == channel);
        assert(s.track.channels.contains(channel));
    } else {
        assert(!s.track.channels.contains(channel));
        assert(s.track.channels.push(channel) =~= seq![channel]);
    }
}

/// A note's end, read.
proof fn lemma_end_read(
    e: Seq<TrackEvent>,
    j: nat,
    s: smf::Reading,
    channel: u8,
    note: u8,
    vel: u8,
    t: smf::Reading,
)
    requires
        0 < j < e.len(),
        channel < 16,
        note <= 127,
        e[j as int].kind == (EventKind::NoteOff { channel, note }),
        e[j as int].tick == e[j - 1].tick + 24,
        s.at == track_body(e, j).len(),
        s.tick == e[j - 1].tick,
        s.on.len() == 4096,
        s.on[channel * 256 + note] == Some((s.tick, vel)),
        s.track.channels == seq![channel],
        s.track.notes.len() > 0 ==> s.track.notes.last().tick < s.tick,
        t == (smf::Reading {
            at: track_body(e, j + 1).len(),
            tick: e[j as int].tick as u64,
            running: Some((0x80 + channel) as u8),
            on: s.on.update(channel * 256 + note, None),
            track: smf::TrackView {
                notes: s.track.notes.push(
                    smf::MidiNote { tick: s.tick, len: 24, key: note, vel },
                ),
                ..s.track
            },
            ..s
        }),
    ensures
        smf::event(track_body(e, e.len()), s) == Ok::<smf::Reading, smf::MidiFault>(t),
{
    lemma_event_bytes(e, j, e.len());
    assert(delta(e, j as int) == 24);
    let off = (0x80 + channel) as u8;
    assert(off / 16 == 8 && off % 16 == channel);
    assert(seq![channel][0] == channel);
    assert(s.track.channels.contains(channel));
    let v = s.track.notes;
    let n = smf::MidiNote { tick: s.tick, len: 24, key: note, vel };
    assert(smf::note_place(v, n, v.len()) == v.len());
    assert(smf::with_note(v, n) =~= v.push(n));
}

/// A note's start and end, read one after the other, add the note.
proof fn lemma_note_read(e: Seq<TrackEvent>, j: nat, s: smf::Reading, channel: u8, note: u8, vel: u8)
    requires
        j + 1 < e.len(),
        channel < 16,
        note <= 127,
        0 < vel <= 127,
        e[j as int].kind == (EventKind::NoteOn { channel, note, vel }),
        e[j as int + 1].kind == (EventKind::NoteOff { channel, note }),
        e[j as int + 1].tick == e[j as int].tick + 24,
        clock(e, j) <= e[j as int].tick,
        s.at == track_body(e, j).len(),
        s.tick == clock(e, j),
        s.on == smf::silence(),
        s.track.notes.len() > 0 ==> s.track.notes.last().tick < e[j as int].tick,
        s.track.channels == (if s.track.notes.len() == 0 {
            Seq::<u8>::empty()
        } else {
            seq![channel]
        }),
    ensures
        ({
            let b = track_body(e, e.len());
            let done = smf::Reading {
                at: track_body(e, j + 2).len(),
                tick: e[j as int + 1].tick as u64,
                running: Some((0x80 + channel) as u8),
                track: smf::TrackView {
                    notes: s.track.notes.push(
                        smf::MidiNote { tick: e[j as int].tick as u64, len: 24, key: note, vel },
                    ),
                    channels: seq![channel],
                    ..s.track
                },
                ..s
            };
            smf::events(b, s) == smf::events(b, done)
        }),
{
    let b = track_body(e, e.len());
    let t = e[j as int].tick as u64;
    let slot = channel * 256 + note;
    let s1 = smf::Reading {
        at: track_body(e, j + 1).len(),
        tick: t,
        running: Some((0x90 + channel) as u8),
        on: s.on.update(slot, Some((t, vel))),
        track: smf::TrackView { channels: seq![channel], ..s.track },
        ..s
    };
    lemma_start_read(e, j, s, channel, note, vel, s1);
    assert(s1.on[slot] == Some((t, vel)));
    assert(s1.on.update(slot, None) =~= smf::silence());
    let s2 = smf::Reading {
        at: track_body(e, j + 2).len(),
        tick: (t + 24) as u64,
        running: Some((0x80 + channel) as u8),
        on: smf::silence(),
        track: smf::TrackView {
            notes: s.track.notes.push(smf::MidiNote { tick: t, len: 24, key: note, vel }),
            ..s1.track
        },
        ..s1
    };
    lemma_end_read(e, j + 1, s1, channel, note, vel, s2);
    lemma_step(b, s, s1);
    lemma_step(b, s1, s2);
}

proof fn lemma_step(b: Seq<u8>, s: smf::Reading, t: smf::Reading)
    requires
        smf::event(b, s) == Ok::<smf::Reading, smf::MidiFault>(t),
    ensures
        smf::events(b, s) == smf::events(b, t),
{
    smf::lemma_event_advances(b, s);
}

/// A track before its first event.
spec fn fresh(tempos: Seq<(u64, u32)>) -> smf::Reading {
    smf::Reading {
        at: 0,
        tick: 0,
        running: None,
        track: smf::TrackView { name: Seq::empty(), notes: Seq::empty(), channels: Seq::empty() },
        on: smf::silence(),
        tempos,
    }
}

proof fn lemma_events_prefix(phrase: Seq<Seq<Cell>>, ch: int, k: nat, n: nat)
    requires
        k <= n,
    ensures
        channel_events(phrase, ch, k).len() <= channel_events(phrase, ch, n).len(),
        channel_events(phrase, ch, n).take(channel_events(phrase, ch, k).len() as int)
            == channel_events(phrase, ch, k),
    decreases n,
{
    let a = channel_events(phrase, ch, k);
    if k == n {
        assert(a.take(a.len() as int) =~= a);
    } else {
        lemma_events_prefix(phrase, ch, k, (n - 1) as nat);
        let c = channel_events(phrase, ch, (n - 1) as nat);
        assert(channel_events(phrase, ch, n).take(a.len() as int) =~= c.take(a.len() as int));
    }
}

proof fn lemma_velocity(vol: u8)
    ensures
        0 < velocity(vol) <= 127,
{
    if 0 < vol < 15 {
        assert(8 <= vol as int * 127 / 15 <= 127);
    }
}

/// A track's first `k` steps, read: their notes, and nothing sounds.
proof fn lemma_steps_read(
    phrase: Seq<Seq<Cell>>,
    ch: int,
    loops: nat,
    k: nat,
    tempos: Seq<(u64, u32)>,
) -> (s: smf::Reading)
    requires
        0 <= ch < 4,
        k <= 16 * loops,
        loops * 384 <= u32::MAX,
        is_playable(phrase),
    ensures
        ({
            let e = track_events(phrase, ch, loops);
            let c = channel_events(phrase, ch, k).len();
            let b = track_body(e, e.len());
            &&& smf::events(b, fresh(tempos)) == smf::events(b, s)
            &&& s.at == track_body(e, c).len()
            &&& s.tick == clock(e, c)
            &&& s.on == smf::silence()
            &&& s.tempos == tempos
            &&& s.track == heard_track(phrase, ch, k)
        }),
    decreases k,
{
    let e = track_events(phrase, ch, loops);
    let b = track_body(e, e.len());
    if k == 0 {
        let s = fresh(tempos);
        assert(s.track == heard_track(phrase, ch, 0));
        s
    } else {
        let s = lemma_steps_read(phrase, ch, loops, (k - 1) as nat, tempos);
        let x = phrase[(k - 1) % 16][ch];
        match x.note {
            None => {
                assert(channel_events(phrase, ch, k) =~= channel_events(
                    phrase,
                    ch,
                    (k - 1) as nat,
                ));
                s
            },
            Some(n) => {
                let j = channel_events(phrase, ch, (k - 1) as nat).len();
                let now = channel_events(phrase, ch, k);
                let all = channel_events(phrase, ch, 16 * loops);
                lemma_events_prefix(phrase, ch, k, 16 * loops);
                assert(now.len() == j + 2);
                assert(e[j as int] == now[j as int]) by {
                    assert(all.take(now.len() as int)[j as int] == all[j as int]);
                }
                assert(e[j as int + 1] == now[j as int + 1]) by {
                    assert(all.take(now.len() as int)[j as int + 1] == all[j as int + 1]);
                }
                let tick = ((k - 1) * 24) as u32;
                assert(now[j as int].tick == tick);
                assert(now[j as int + 1].tick == tick + 24);
                if j > 0 {
                    lemma_events_prefix(phrase, ch, (k - 1) as nat, 16 * loops);
                    let past = channel_events(phrase, ch, (k - 1) as nat);
                    assert(all.take(j as int)[j - 1] == all[j - 1]);
                    assert(e[j - 1] == past[j - 1]);
                    lemma_ticks(phrase, ch, (k - 1) as nat, j - 1);
                }
                lemma_velocity(x.vol);
                lemma_note_goes_last(phrase, ch, (k - 1) as nat);
                if ch < 3 {
                    assert(phrase[(k - 1) % 16][ch].note == Some(n));
                }
                lemma_note_read(
                    e,
                    j,
                    s,
                    midi_channel(ch),
                    midi_note(n, ch),
                    velocity(x.vol),
                );
                let t = smf::Reading {
                    at: track_body(e, j + 2).len(),
                    tick: e[j as int + 1].tick as u64,
                    running: Some((0x80 + midi_channel(ch)) as u8),
                    track: heard_track(phrase, ch, k),
                    ..s
                };
                assert(heard_track(phrase, ch, k).notes == s.track.notes.push(
                    smf::MidiNote {
                        tick: tick as u64,
                        len: 24,
                        key: midi_note(n, ch),
                        vel: velocity(x.vol),
                    },
                ));
                t
            },
        }
    }
}

/// A channel's bytes without their chunk's head.
#[verifier::opaque]
spec fn channel_body(phrase: Seq<Seq<Cell>>, ch: int, times: nat) -> Seq<u8> {
    let e = track_events(phrase, ch, times);
    track_body(e, e.len())
}

/// Whether a chunk's bytes are read to their end as `s`.
#[verifier::opaque]
spec fn reads_as(body: Seq<u8>, tempos: Seq<(u64, u32)>, s: smf::Reading) -> bool {
    smf::events(body, fresh(tempos)) == Ok::<smf::Reading, smf::MidiFault>(s)
}

/// What `n` more chunks from `pos` on come to.
#[verifier::opaque]
spec fn chunks_from(
    b: Seq<u8>,
    n: nat,
    pos: nat,
    tempos: Seq<(u64, u32)>,
    tracks: Seq<smf::TrackView>,
) -> Result<(Seq<(u64, u32)>, Seq<smf::TrackView>), smf::MidiFault> {
    smf::chunks(b, n, pos, tempos, tracks)
}

/// A whole track, read.
proof fn lemma_track_read(
    phrase: Seq<Seq<Cell>>,
    ch: int,
    loops: nat,
    tempos: Seq<(u64, u32)>,
) -> (s: smf::Reading)
    requires
        0 <= ch < 4,
        loops * 384 <= u32::MAX,
        is_playable(phrase),
    ensures
        reads_as(channel_body(phrase, ch, loops), tempos, s),
        s.tempos == tempos,
        s.track == heard_track(phrase, ch, 16 * loops),
{
    reveal(channel_body);
    reveal(reads_as);
    let e = track_events(phrase, ch, loops);
    let b = track_body(e, e.len());
    let s = lemma_steps_read(phrase, ch, loops, 16 * loops, tempos);
    let j = (e.len() - 1) as nat;
    assert(j == channel_events(phrase, ch, 16 * loops).len());
    lemma_event_bytes(e, j, e.len());
    let i = s.at + vlq_bytes(delta(e, j as int)).len();
    assert(delta(e, j as int) == 0);
    assert(smf::vlq_at(b, i + 2) == Some((0nat, i + 3)));
    let t = smf::Reading { at: i + 3, ..s };
    assert(smf::event(b, s) == Ok::<smf::Reading, smf::MidiFault>(t));
    assert(smf::events(b, t) == Ok::<smf::Reading, smf::MidiFault>(t));
    t
}

proof fn lemma_body_len(e: Seq<TrackEvent>, k: nat)
    requires
        k <= e.len(),
        forall|i: int| 0 <= i < e.len() ==> #[trigger] delta(e, i) <= u32::MAX,
    ensures
        track_body(e, k).len() <= 8 * k,
    decreases k,
{
    if k > 0 {
        lemma_body_len(e, (k - 1) as nat);
        lemma_head_len(delta(e, k - 1) / 128, 4);
    }
}

proof fn lemma_event_count(phrase: Seq<Seq<Cell>>, ch: int, k: nat)
    ensures
        channel_events(phrase, ch, k).len() <= 2 * k,
    decreases k,
{
    if k > 0 {
        lemma_event_count(phrase, ch, (k - 1) as nat);
    }
}

proof fn lemma_be32(n: nat)
    requires
        n <= u32::MAX,
    ensures
        be32(n)[0] * 0x100_0000 + be32(n)[1] * 0x1_0000 + be32(n)[2] * 0x100 + be32(n)[3] == n,
{
    let a = n / 0x100;
    let c = n / 0x1_0000;
    let d = n / 0x100_0000;
    assert(n == 0x100 * a + n % 0x100);
    assert(a == 0x100 * c + a % 0x100);
    assert(c == 0x100 * d + c % 0x100);
    assert(d < 0x100);
}

/// A chunk in a file is read as its track.
proof fn lemma_chunk_read(
    before: Seq<u8>,
    body: Seq<u8>,
    after: Seq<u8>,
    n: nat,
    tempos: Seq<(u64, u32)>,
    tracks: Seq<smf::TrackView>,
    done: smf::Reading,
)
    requires
        n > 0,
        body.len() <= u32::MAX,
        reads_as(body, tempos, done),
    ensures
        ({
            let b = before + track_chunk(body) + after;
            chunks_from(b, n, before.len(), tempos, tracks) == chunks_from(
                b,
                (n - 1) as nat,
                (before + track_chunk(body)).len(),
                done.tempos,
                tracks.push(done.track),
            )
        }),
{
    reveal(reads_as);
    reveal(chunks_from);
    let b = before + track_chunk(body) + after;
    let p = before.len() as int;
    let k = track_chunk(body);
    lemma_be32(body.len());
    assert(k.len() == 8 + body.len());
    assert forall|i: int| 0 <= i < 8 implies b[p + i] == k[i] by {}
    assert(b[p] == k[0] && b[p + 1] == k[1] && b[p + 2] == k[2] && b[p + 3] == k[3]);
    assert(b[p + 4] == k[4] && b[p + 5] == k[5] && b[p + 6] == k[6] && b[p + 7] == k[7]);
    assert(smf::tag_at(b, p, 0x4D, 0x54, 0x72, 0x6B));
    assert(smf::word_at(b, p + 4) == body.len());
    assert(b.subrange(p + 8, p + 8 + body.len()) =~= body);
}

proof fn lemma_small_quantity(b: Seq<u8>, i: nat)
    requires
        i < b.len(),
        b[i as int] < 128,
    ensures
        smf::vlq_at(b, i) == Some((b[i as int] as nat, i + 1)),
{
}

/// A tempo event and an end, read.
proof fn lemma_tempo_read(b: Seq<u8>, us: u32) -> (s: smf::Reading)
    requires
        b.len() == 11,
        b[0] == 0 && b[1] == 0xFF && b[2] == 0x51 && b[3] == 3,
        b[4] * 0x1_0000 + b[5] * 0x100 + b[6] == us,
        b[7] == 0 && b[8] == 0xFF && b[9] == 0x2F && b[10] == 0,
    ensures
        smf::events(b, fresh(Seq::empty())) == Ok::<smf::Reading, smf::MidiFault>(s),
        s.track == fresh(Seq::empty()).track,
        s.tempos == seq![(0u64, us)],
{
    let s = fresh(Seq::empty());
    lemma_small_quantity(b, 0);
    lemma_small_quantity(b, 3);
    lemma_small_quantity(b, 7);
    lemma_small_quantity(b, 10);
    let data = b.subrange(4, 7);
    assert(data[0] == b[4] && data[1] == b[5] && data[2] == b[6]);
    assert(smf::with_tempo(Seq::empty(), 0, us) =~= seq![(0u64, us)]);
    let t = smf::Reading { at: 7, tempos: seq![(0u64, us)], ..s };
    assert(smf::event(b, s) == smf::meta_event(b, s, 0, 1));
    assert(smf::meta_event(b, s, 0, 1) == Ok::<smf::Reading, smf::MidiFault>(t));
    let u = smf::Reading { at: 11, ..t };
    assert(smf::event(b, t) == smf::meta_event(b, t, 0, 8));
    assert(smf::meta_event(b, t, 0, 8) == Ok::<smf::Reading, smf::MidiFault>(u));
    assert(smf::events(b, s) == smf::events(b, t));
    assert(smf::events(b, t) == smf::events(b, u));
    u
}

proof fn lemma_three_bytes(n: nat)
    ensures
        n / 0x1_0000 % 0x100 * 0x1_0000 + n / 0x100 % 0x100 * 0x100 + n % 0x100 == n % 0x100_0000,
{
    let a = n / 0x100;
    let c = n / 0x1_0000;
    let d = n / 0x100_0000;
    assert(n == 0x100 * a + n % 0x100);
    assert(a == 0x100 * c + a % 0x100);
    assert(c == 0x100 * d + c % 0x100);
    assert(n == 0x100_0000 * d + n % 0x100_0000);
}

/// The conductor's track, read: the tempo and no notes.
proof fn lemma_conductor_read(bpm: u16) -> (s: smf::Reading)
    ensures
        conductor_body(bpm).len() == 11,
        reads_as(conductor_body(bpm), Seq::empty(), s),
        s.track == fresh(Seq::empty()).track,
        s.tempos == seq![(0u64, (quarter_us(bpm) % 0x100_0000) as u32)],
{
    reveal(reads_as);
    lemma_three_bytes(quarter_us(bpm));
    lemma_tempo_read(conductor_body(bpm), (quarter_us(bpm) % 0x100_0000) as u32)
}

proof fn lemma_body_fits(phrase: Seq<Seq<Cell>>, ch: int, loops: nat)
    requires
        loops * 384 <= u32::MAX,
    ensures
        channel_body(phrase, ch, loops).len() <= u32::MAX,
{
    reveal(channel_body);
    let e = track_events(phrase, ch, loops);
    lemma_event_count(phrase, ch, 16 * loops);
    lemma_body_len(e, e.len());
}

proof fn lemma_regroup(
    h: Seq<u8>,
    a: Seq<u8>,
    b: Seq<u8>,
    c: Seq<u8>,
    d: Seq<u8>,
    e: Seq<u8>,
)
    ensures
        h + a + b + c + d + e == h + a + (b + c + d + e),
        h + a + b + c + d + e == (h + a) + b + (c + d + e),
        h + a + b + c + d + e == (h + a + b) + c + (d + e),
        h + a + b + c + d + e == (h + a + b + c) + d + e,
        h + a + b + c + d + e == (h + a + b + c + d) + e + Seq::<u8>::empty(),
{
    let all = h + a + b + c + d + e;
    assert(all =~= h + a + (b + c + d + e));
    assert(all =~= (h + a) + b + (c + d + e));
    assert(all =~= (h + a + b) + c + (d + e));
    assert(all =~= (h + a + b + c + d) + e + Seq::<u8>::empty());
}

proof fn lemma_no_chunks(
    b: Seq<u8>,
    pos: nat,
    tempos: Seq<(u64, u32)>,
    tracks: Seq<smf::TrackView>,
)
    ensures
        chunks_from(b, 0, pos, tempos, tracks) == Ok::<
            (Seq<(u64, u32)>, Seq<smf::TrackView>),
            smf::MidiFault,
        >((tempos, tracks)),
{
    reveal(chunks_from);
}

/// A conductor's chunk and four more, read one after the other.
proof fn lemma_chunks_read(
    h: Seq<u8>,
    b: Seq<u8>,
    b0: Seq<u8>,
    b1: Seq<u8>,
    b2: Seq<u8>,
    b3: Seq<u8>,
    s: smf::Reading,
    s0: smf::Reading,
    s1: smf::Reading,
    s2: smf::Reading,
    s3: smf::Reading,
)
    requires
        b.len() <= u32::MAX,
        b0.len() <= u32::MAX,
        b1.len() <= u32::MAX,
        b2.len() <= u32::MAX,
        b3.len() <= u32::MAX,
        reads_as(b, Seq::empty(), s),
        reads_as(b0, s.tempos, s0),
        reads_as(b1, s0.tempos, s1),
        reads_as(b2, s1.tempos, s2),
        reads_as(b3, s2.tempos, s3),
    ensures
        chunks_from(
            h + track_chunk(b) + track_chunk(b0) + track_chunk(b1) + track_chunk(b2) + track_chunk(
                b3,
            ),
            5,
            h.len(),
            Seq::empty(),
            Seq::empty(),
        ) == Ok::<(Seq<(u64, u32)>, Seq<smf::TrackView>), smf::MidiFault>(
            (s3.tempos, seq![s.track, s0.track, s1.track, s2.track, s3.track]),
        ),
{
    let c = track_chunk(b);
    let k0 = track_chunk(b0);
    let k1 = track_chunk(b1);
    let k2 = track_chunk(b2);
    let k3 = track_chunk(b3);
    lemma_regroup(h, c, k0, k1, k2, k3);
    let v = Seq::<smf::TrackView>::empty();
    let v0 = v.push(s.track);
    let v1 = v0.push(s0.track);
    let v2 = v1.push(s1.track);
    let v3 = v2.push(s2.track);
    let v4 = v3.push(s3.track);
    let all = h + c + k0 + k1 + k2 + k3;
    lemma_chunk_read(h, b, k0 + k1 + k2 + k3, 5, Seq::empty(), v, s);
    lemma_chunk_read(h + c, b0, k1 + k2 + k3, 4, s.tempos, v0, s0);
    lemma_chunk_read(h + c + k0, b1, k2 + k3, 3, s0.tempos, v1, s1);
    lemma_chunk_read(h + c + k0 + k1, b2, k3, 2, s1.tempos, v2, s2);
    lemma_chunk_read(h + c + k0 + k1 + k2, b3, Seq::empty(), 1, s2.tempos, v3, s3);
    lemma_no_chunks(all, (h + c + k0 + k1 + k2 + k3).len(), s3.tempos, v4);
    assert(v4 =~= seq![s.track, s0.track, s1.track, s2.track, s3.track]);
}

/// The chunks of a file, in order.
proof fn lemma_file_bytes(phrase: Seq<Seq<Cell>>, bpm: u16, loops: u32, times: nat)
    requires
        times == (if loops == 0 {
            1
        } else {
            loops as nat
        }),
    ensures
        midi_bytes(phrase, bpm, loops) == file_header() + track_chunk(conductor_body(bpm))
            + channel_chunk(phrase, 0, times) + channel_chunk(phrase, 1, times) + channel_chunk(
            phrase,
            2,
            times,
        ) + channel_chunk(phrase, 3, times),
{
    let base = file_header() + track_chunk(conductor_body(bpm));
    let k0 = channel_chunk(phrase, 0, times);
    let k1 = channel_chunk(phrase, 1, times);
    let k2 = channel_chunk(phrase, 2, times);
    let k3 = channel_chunk(phrase, 3, times);
    reveal(channel_body);
    assert(tracks(phrase, times, 0) == Seq::<u8>::empty());
    assert(tracks(phrase, times, 1) == Seq::<u8>::empty() + k0);
    assert(tracks(phrase, times, 2) == Seq::<u8>::empty() + k0 + k1);
    assert(tracks(phrase, times, 3) == Seq::<u8>::empty() + k0 + k1 + k2);
    assert(tracks(phrase, times, 4) == Seq::<u8>::empty() + k0 + k1 + k2 + k3);
    assert(base + (Seq::<u8>::empty() + k0 + k1 + k2 + k3) =~= base + k0 + k1 + k2 + k3);
}

spec fn channel_chunk(phrase: Seq<Seq<Cell>>, ch: int, times: nat) -> Seq<u8> {
    track_chunk(channel_body(phrase, ch, times))
}

/// A file whose header is this library's.
proof fn lemma_header_read(b: Seq<u8>, rest: Seq<u8>)
    requires
        b == file_header() + rest,
    ensures
        b.len() >= 14,
        smf::tag_at(b, 0, 0x4D, 0x54, 0x68, 0x64),
        smf::word_at(b, 4) == 6,
        b[10] * 0x100 + b[11] == 5,
        b[12] < 0x80,
        b[12] * 0x100 + b[13] == PPQN,
        match chunks_from(b, 5, 14, Seq::empty(), Seq::empty()) {
            Ok((tempos, tracks)) => smf::midi_file(b) == Ok::<smf::MidiView, smf::MidiFault>(
                smf::MidiView { ticks_per_quarter: PPQN, tempos, tracks },
            ),
            Err(e) => smf::midi_file(b) == Err::<smf::MidiView, smf::MidiFault>(e),
        },
{
    reveal(chunks_from);
    let h = file_header();
    assert(b[0] == h[0] && b[1] == h[1] && b[2] == h[2] && b[3] == h[3] && b[4] == h[4]);
    assert(b[5] == h[5] && b[6] == h[6] && b[7] == h[7] && b[10] == h[10] && b[11] == h[11]);
    assert(b[12] == h[12] && b[13] == h[13]);
}

/// Reading gives back what was written: the file of a phrase, read, has the
/// phrase's notes at their times on their channels, and its tempo.
pub proof fn law_file_reads_back(phrase: Seq<Seq<Cell>>, bpm: u16, loops: u32)
    requires
        loops * 384 <= u32::MAX,
        is_playable(phrase),
    ensures
        smf::midi_file(midi_bytes(phrase, bpm, loops)) == Ok::<smf::MidiView, smf::MidiFault>(
            heard_file(
                phrase,
                bpm,
                if loops == 0 {
                    1
                } else {
                    loops as nat
                },
            ),
        ),
{
    let times: nat = if loops == 0 {
        1
    } else {
        loops as nat
    };
    let b = midi_bytes(phrase, bpm, loops);
    lemma_file_bytes(phrase, bpm, loops, times);
    let s = lemma_conductor_read(bpm);
    let tempos = s.tempos;
    let s0 = lemma_track_read(phrase, 0, times, tempos);
    let s1 = lemma_track_read(phrase, 1, times, tempos);
    let s2 = lemma_track_read(phrase, 2, times, tempos);
    let s3 = lemma_track_read(phrase, 3, times, tempos);
    lemma_body_fits(phrase, 0, times);
    lemma_body_fits(phrase, 1, times);
    lemma_body_fits(phrase, 2, times);
    lemma_body_fits(phrase, 3, times);
    lemma_chunks_read(
        file_header(),
        conductor_body(bpm),
        channel_body(phrase, 0, times),
        channel_body(phrase, 1, times),
        channel_body(phrase, 2, times),
        channel_body(phrase, 3, times),
        s,
        s0,
        s1,
        s2,
        s3,
    );
    assert(file_header().len() == 14);
    assert(b =~= file_header() + b.skip(14));
    lemma_header_read(b, b.skip(14));
}

// ---------------------------------------------------------------- what is heard

/// Where the note of step `k` stands among those of its track.
pub open spec fn notes_before(phrase: Seq<Seq<Cell>>, ch: int, k: nat) -> nat
    decreases k,
{
    if k == 0 {
        0
    } else {
        notes_before(phrase, ch, (k - 1) as nat) + (if phrase[(k - 1) % 16][ch].note is Some {
            1nat
        } else {
            0nat
        })
    }
}

proof fn lemma_phrase_notes(phrase: Seq<Seq<Cell>>, ch: int, k: nat, n: nat)
    requires
        k < n,
    ensures
        phrase_notes(phrase, ch, n).len() == notes_before(phrase, ch, n),
        notes_before(phrase, ch, k) < notes_before(phrase, ch, n) || phrase[k as int % 16][ch].note
            is None,
        notes_before(phrase, ch, k) <= notes_before(phrase, ch, n),
        phrase[k as int % 16][ch].note matches Some(x) ==> phrase_notes(
            phrase,
            ch,
            n,
        )[notes_before(phrase, ch, k) as int] == (smf::MidiNote {
            tick: (k * 24) as u64,
            len: 24,
            key: midi_note(x, ch),
            vel: velocity(phrase[k as int % 16][ch].vol),
        }),
    decreases n,
{
    reveal_with_fuel(phrase_notes, 2);
    reveal_with_fuel(notes_before, 2);
    if k < n - 1 {
        lemma_phrase_notes(phrase, ch, k, (n - 1) as nat);
    } else if k > 0 {
        lemma_phrase_notes(phrase, ch, (k - 1) as nat, k);
    }
}

/// Every note of a phrase is heard in its file, where it stands and as it is
/// written: a step is a quarter of a quarter note, tone channels keep their
/// keys, and noise becomes a kick, a snare or a hat by its height. Full volume
/// strikes at full velocity, less in proportion.
pub proof fn law_exported_steps_are_heard(
    phrase: Seq<Seq<Cell>>,
    bpm: u16,
    loops: nat,
    ch: int,
    k: nat,
)
    requires
        0 <= ch < TRACKS,
        k < 16 * loops,
        k * 24 <= u64::MAX,
        phrase[k as int % 16][ch].note is Some,
    ensures
        ({
            let x = phrase[k as int % 16][ch];
            let n = x.note->0;
            let f = heard_file(phrase, bpm, loops);
            let y = f.tracks[ch + 1].notes[notes_before(phrase, ch, k) as int];
            &&& notes_before(phrase, ch, k) < f.tracks[ch + 1].notes.len()
            &&& 4 * y.tick == k * f.ticks_per_quarter
            &&& 4 * y.len == f.ticks_per_quarter
            &&& ch < 3 ==> y.key == n
            &&& ch == 3 && n <= 44 ==> y.key == 36
            &&& ch == 3 && 44 < n <= 54 ==> y.key == 38
            &&& ch == 3 && 54 < n ==> y.key == 42
            &&& x.vol == 15 ==> y.vel == 127
            &&& 0 < x.vol <= 15 ==> 15 * y.vel <= 127 * x.vol < 15 * (y.vel + 1)
            &&& x.vol == 0 ==> y.vel == 100
            &&& f.tracks[ch + 1].channels == seq![if ch == 3 {
                9u8
            } else {
                ch as u8
            }]
        }),
{
    lemma_phrase_notes(phrase, ch, k, 16 * loops);
    let f = heard_file(phrase, bpm, loops);
    assert(f.tracks[ch + 1] == heard_track(phrase, ch, 16 * loops));
}

/// Steps are heard in order, so that what stands at a note's place is that
/// note and no other.
pub proof fn law_nothing_else_is_heard(phrase: Seq<Seq<Cell>>, ch: int, n: nat, j: int)
    requires
        0 <= j < phrase_notes(phrase, ch, n).len(),
    ensures
        exists|k: nat|
            k < n && phrase[k as int % 16][ch].note is Some && j == #[trigger] notes_before(
                phrase,
                ch,
                k,
            ),
    decreases n,
{
    if j < phrase_notes(phrase, ch, (n - 1) as nat).len() {
        law_nothing_else_is_heard(phrase, ch, (n - 1) as nat, j);
        let k = choose|k: nat|
            k < n - 1 && phrase[k as int % 16][ch].note is Some && j == #[trigger] notes_before(
                phrase,
                ch,
                k,
            );
        assert(j == notes_before(phrase, ch, k));
    } else {
        if n > 1 {
            lemma_phrase_notes(phrase, ch, 0, (n - 1) as nat);
        }
        assert(j == notes_before(phrase, ch, (n - 1) as nat));
    }
}

proof fn lemma_quarter_from(x: nat, b: nat, scale: nat)
    requires
        4 <= b <= 65_535,
        scale >= 1,
        x == 60_000_000 * scale,
    ensures
        60_000_000 - 2 * b < quarter_from(x, b, scale) * b < 60_000_000 + 2 * b,
    decreases 0x100_0000 * b - x,
{
    if x / b >= 0x80_0000 {
        let m = text::rounded(x as int, b as int);
        let q = m / scale as int;
        text::law_rounded_is_nearest(x as int, b as int);
        assert(60_000_000 - 2 * b < q * b < 60_000_000 + 2 * b) by (nonlinear_arith)
            requires
                b >= 4,
                scale >= 1,
                x == 60_000_000 * scale,
                q == m / scale as int,
                2 * (m * b - x) <= b,
                2 * (x - m * b) <= b,
        ;
        assert(q >= 0) by (nonlinear_arith)
            requires
                60_000_000 - 2 * b < q * b,
                4 <= b <= 65_535,
        ;
    } else {
        assert(x < 0x80_0000 * b) by (nonlinear_arith)
            requires
                x / b < 0x80_0000,
                b > 0,
        ;
        lemma_quarter_from(2 * x, b, 2 * scale);
    }
}

/// The tempo in a file is the song's, to within two microseconds a quarter.
pub proof fn law_the_tempo_is_the_songs(bpm: u16)
    requires
        bpm >= 1,
    ensures
        60_000_000 - 2 * bpm < quarter_us(bpm) * bpm < 60_000_000 + 2 * bpm,
{
    let b = bpm as nat;
    if b <= 3 {
        let q = 60_000_000nat / b;
        assert(q * b == 60_000_000) by (nonlinear_arith)
            requires
                q == 60_000_000nat / b,
                b == 1 || b == 2 || b == 3,
        ;
    } else {
        lemma_quarter_from(60_000_000, b, 1);
    }
}

} // verus!
