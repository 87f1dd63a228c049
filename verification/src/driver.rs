//! What a lowered song plays: a driver that obeys its events strikes the notes
//! of the song's cells, with their instruments and volumes, and lets them go
//! where the cells end them.

use vstd::prelude::*;

use crate::compile;
use crate::compile::{Event, Lane};
use crate::rip::pitch;
use crate::rip::trace::TRI;
use crate::rip::tuning;
use crate::song;
use crate::song::{Cell, SongView, CHANNELS, INSTRUMENTS, STEPS_PER_PHRASE};

verus! {

/// A driver's channel: what it was last told.
pub struct Driver {
    pub instr: Option<u8>,
    pub vol: Option<u8>,
    /// The entry of the pitch table, the noise period or the sample.
    pub index: Option<u8>,
    /// Whether a note is on.
    pub on: bool,
}

/// A channel after an event.
pub open spec fn obeyed(d: Driver, e: Event) -> Driver {
    match e {
        Event::Instr(i) => Driver { instr: Some(i), ..d },
        Event::Vol(v) => Driver { vol: Some(v), ..d },
        Event::Note(n) => Driver { index: Some(n), on: true, ..d },
        Event::Off => Driver { on: false, ..d },
        _ => d,
    }
}

/// A channel after the first `k` events.
pub open spec fn told(d: Driver, ev: Seq<Event>, k: nat) -> Driver
    decreases k,
{
    if k == 0 {
        d
    } else {
        obeyed(told(d, ev, (k - 1) as nat), ev[k - 1])
    }
}

/// A channel after the first `k` steps.
pub open spec fn driven(d: Driver, rows: Seq<Seq<Event>>, k: nat) -> Driver
    decreases k,
{
    if k == 0 {
        d
    } else {
        told(driven(d, rows, (k - 1) as nat), rows[k - 1], rows[k - 1].len())
    }
}

/// The cell that a song's channel plays on a step of a phrase: a channel with
/// a length of its own starts again behind it.
pub open spec fn played_cell(s: SongView, p: int, ch: int, step: int) -> Cell {
    s.phrases[p][step % (s.channel_length[ch] as int)][ch]
}

/// Whether an index is what strikes a note on a channel. The pitch table
/// begins with C-1 for a pulse, and an octave lower for the triangle, which
/// divides by twice as much. The 16 noise periods share four notes each, and
/// samples begin with middle C.
pub open spec fn strikes(index: u8, n: u8, ch: int, samples: nat) -> bool {
    if ch == 4 {
        (60 <= n && n - 60 < samples ==> index == n - 60) && (n < 60 ==> index == 0) && (n - 60
            >= samples > 0 ==> index == (samples - 1) as u8)
    } else if ch == 3 {
        index <= 15 && (36 <= n <= 99 ==> 4 * (15 - index) <= n - 36 <= 4 * (15 - index) + 3) && (n
            < 36 ==> index == 15) && (n > 99 ==> index == 0)
    } else if ch == 2 {
        index <= 95 && (12 <= n <= 107 ==> n == index + 12) && (n < 12 ==> index == 0) && (n > 107
            ==> index == 95)
    } else {
        index <= 95 && (24 <= n <= 119 ==> n == index + 24) && (n < 24 ==> index == 0) && (n > 119
            ==> index == 95)
    }
}

// ---------------------------------------------------------------- one step

proof fn lemma_told_push(d: Driver, ev: Seq<Event>, e: Event)
    ensures
        told(d, ev.push(e), ev.push(e).len()) == obeyed(told(d, ev, ev.len()), e),
{
    lemma_told_prefix(d, ev, ev.push(e), ev.len());
}

proof fn lemma_told_prefix(d: Driver, a: Seq<Event>, b: Seq<Event>, k: nat)
    requires
        k <= a.len() <= b.len(),
        forall|i: int| 0 <= i < k ==> #[trigger] a[i] == b[i],
    ensures
        told(d, a, k) == told(d, b, k),
    decreases k,
{
    if k > 0 {
        lemma_told_prefix(d, a, b, (k - 1) as nat);
        assert(a[k - 1] == b[k - 1]);
    }
}

/// Whether a driver is at least where a lane thinks it is.
spec fn agrees(d: Driver, l: Lane, ch: int) -> bool {
    &&& l.instr is Some ==> d.instr == l.instr
    &&& l.vol is Some ==> d.vol == l.vol
    &&& ch == 4 ==> !l.sounding
    &&& ch != 4 ==> (d.on ==> l.sounding)
}

proof fn lemma_note_events(d: Driver, l: Lane, x: Cell, n: u8, ch: int, samples: nat)
    requires
        l.instr is Some ==> d.instr == l.instr,
        l.vol is Some ==> d.vol == l.vol,
    ensures
        ({
            let ev = compile::note_events(l, x, n, ch, samples);
            let r = told(d, ev, ev.len());
            &&& r.on
            &&& r.index == Some(compile::note_index(n, ch, samples))
            &&& ch != 4 ==> r.instr == Some(compile::table_instr(x)) && r.vol == Some(
                compile::full_volume(x),
            )
            &&& ch == 4 ==> r.instr == d.instr && r.vol == d.vol
        }),
{
    let s0 = Seq::<Event>::empty();
    let i = Event::Instr(compile::table_instr(x));
    let v = Event::Vol(compile::full_volume(x));
    let s1 = if ch != 4 && l.instr != Some(compile::table_instr(x)) {
        seq![i]
    } else {
        s0
    };
    assert(s0.push(i) =~= seq![i]);
    lemma_told_push(d, s0, i);
    let s2 = if ch != 4 && l.vol != Some(compile::full_volume(x)) {
        s1.push(v)
    } else {
        s1
    };
    lemma_told_push(d, s1, v);
    let s3 = match x.fx {
        Some((cmd, p)) => match compile::fx_event(cmd, p) {
            Some(e) => s2.push(e),
            None => s2,
        },
        None => s2,
    };
    if let Some((cmd, p)) = x.fx {
        if let Some(e) = compile::fx_event(cmd, p) {
            lemma_told_push(d, s2, e);
        }
    }
    lemma_told_push(d, s3, Event::Note(compile::note_index(n, ch, samples)));
}

proof fn lemma_step(d: Driver, l: Lane, x: Cell, ch: int, step: int, samples: nat)
    requires
        0 <= ch < CHANNELS,
        step >= 0,
        l.instr is Some ==> d.instr == l.instr,
        l.vol is Some ==> d.vol == l.vol,
        ch == 4 ==> !l.sounding,
        step > 0 ==> agrees(d, l, ch),
    ensures
        ({
            let (m, ev) = compile::lane_step(l, x, ch, step, samples);
            let r = told(d, ev, ev.len());
            &&& agrees(r, m, ch)
            &&& x.note matches Some(n) ==> r.on && r.index == Some(
                compile::note_index(n, ch, samples),
            ) && (ch != 4 ==> r.instr == Some(compile::table_instr(x)) && r.vol == Some(
                compile::full_volume(x),
            ))
            &&& x.note is None && x.hold ==> r == d
            &&& x.note is None && !x.hold ==> r == (Driver { on: ch == 4 && d.on, ..d })
        }),
{
    match x.note {
        Some(n) => {
            lemma_note_events(d, l, x, n, ch, samples);
        },
        None => {
            let off = seq![Event::Off];
            assert(Seq::<Event>::empty().push(Event::Off) =~= off);
            lemma_told_push(d, Seq::empty(), Event::Off);
        },
    }
}

/// What a driver is told over the first `k` steps of a channel.
proof fn lemma_channel(
    phrase: Seq<Seq<Cell>>,
    len: u8,
    ch: int,
    samples: nat,
    k: nat,
    d: Driver,
)
    requires
        0 <= ch < CHANNELS,
    ensures
        ({
            let (l, rows) = compile::channel_events(phrase, len, ch, samples, k);
            let r = driven(d, rows, k);
            &&& rows.len() == k
            &&& l.instr is Some ==> r.instr == l.instr
            &&& l.vol is Some ==> r.vol == l.vol
            &&& ch == 4 ==> !l.sounding
            &&& k > 0 ==> agrees(r, l, ch)
        }),
    decreases k,
{
    if k > 0 {
        let j = (k - 1) as nat;
        lemma_channel(phrase, len, ch, samples, j, d);
        let (l, before) = compile::channel_events(phrase, len, ch, samples, j);
        let x = compile::cell_at(phrase, len, ch, k - 1);
        let rows = compile::channel_events(phrase, len, ch, samples, k).1;
        lemma_driven_prefix(d, before, rows, j);
        lemma_step(driven(d, before, j), l, x, ch, k - 1, samples);
    }
}

proof fn lemma_driven_prefix(d: Driver, a: Seq<Seq<Event>>, b: Seq<Seq<Event>>, k: nat)
    requires
        k <= a.len() <= b.len(),
        forall|i: int| 0 <= i < k ==> #[trigger] a[i] == b[i],
    ensures
        driven(d, a, k) == driven(d, b, k),
    decreases k,
{
    if k > 0 {
        lemma_driven_prefix(d, a, b, (k - 1) as nat);
        assert(a[k - 1] == b[k - 1]);
    }
}

/// The events of fewer steps begin those of more.
proof fn lemma_channel_prefix(
    phrase: Seq<Seq<Cell>>,
    len: u8,
    ch: int,
    samples: nat,
    j: nat,
    k: nat,
)
    requires
        j <= k,
    ensures
        compile::channel_events(phrase, len, ch, samples, j).1.len() == j,
        compile::channel_events(phrase, len, ch, samples, k).1.len() == k,
        forall|i: int|
            0 <= i < j ==> #[trigger] compile::channel_events(phrase, len, ch, samples, j).1[i]
                == compile::channel_events(phrase, len, ch, samples, k).1[i],
    decreases k,
{
    if j < k {
        lemma_channel_prefix(phrase, len, ch, samples, j, (k - 1) as nat);
    } else if k > 0 {
        lemma_channel_prefix(phrase, len, ch, samples, (k - 1) as nat, (k - 1) as nat);
    }
}

proof fn lemma_index(n: u8, ch: int, samples: nat)
    requires
        0 <= ch < CHANNELS,
    ensures
        strikes(compile::note_index(n, ch, samples), n, ch, samples),
{
}

// ---------------------------------------------------------------- laws

/// A driver that plays a pattern of a lowered song, whatever it played before,
/// does what the cells say: a note strikes its place in the pitch table with
/// the cell's instrument and volume, an empty cell ends the note, and a held
/// one changes nothing.
pub proof fn law_patterns_play_their_cells(s: SongView, p: int, ch: int, step: nat, d: Driver)
    requires
        0 <= p < s.phrases.len(),
        0 <= ch < CHANNELS,
        step < STEPS_PER_PHRASE,
        1 <= s.channel_length[ch] <= STEPS_PER_PHRASE,
    ensures
        ({
            let rows = compile::lowered(s).patterns[p][ch];
            let x = played_cell(s, p, ch, step as int);
            let before = driven(d, rows, step);
            let after = driven(d, rows, step + 1);
            &&& rows.len() == STEPS_PER_PHRASE
            &&& match x.note {
                Some(n) => {
                    &&& after.on
                    &&& after.index matches Some(i) && strikes(
                        i,
                        n,
                        ch,
                        if s.samples.len() == 0 {
                            crate::dpcm::BANK as nat
                        } else {
                            s.samples.len()
                        },
                    )
                    &&& ch != 4 ==> after.instr == Some(
                        if x.instr < INSTRUMENTS {
                            x.instr
                        } else {
                            15
                        },
                    )
                    &&& ch != 4 ==> after.vol == Some(
                        if 1 <= x.vol <= 15 {
                            x.vol
                        } else {
                            15
                        },
                    )
                },
                None => if x.hold {
                    after == before
                } else {
                    after == (Driver { on: ch == 4 && before.on, ..before })
                },
            }
        }),
{
    let samples = compile::sample_count(s);
    let len = s.channel_length[ch];
    let phrase = s.phrases[p];
    let all = compile::channel_events(phrase, len, ch, samples, STEPS_PER_PHRASE as nat).1;
    assert(compile::lowered(s).patterns[p][ch] == all);
    lemma_channel_prefix(phrase, len, ch, samples, step, STEPS_PER_PHRASE as nat);
    lemma_channel_prefix(phrase, len, ch, samples, step + 1, STEPS_PER_PHRASE as nat);
    let (l, rows) = compile::channel_events(phrase, len, ch, samples, step);
    let next = compile::channel_events(phrase, len, ch, samples, step + 1).1;
    assert forall|i: int| 0 <= i < step implies #[trigger] rows[i] == all[i] by {}
    assert(next[step as int] == all[step as int]);
    lemma_driven_prefix(d, rows, all, step);
    lemma_channel(phrase, len, ch, samples, step, d);
    let x = compile::cell_at(phrase, len, ch, step as int);
    lemma_step(driven(d, rows, step), l, x, ch, step as int, samples);
    if let Some(n) = x.note {
        lemma_index(n, ch, samples);
    }
}

/// One pitch table serves pulses and the triangle: a period register that both
/// hold is lowered to the same entry on both, though the triangle sounds an
/// octave lower.
pub proof fn law_one_table_serves_both(c: usize, p: u16, samples: nat)
    requires
        c < TRI,
        pitch::pitch_of(c, p) is Some,
        24 <= pitch::pitch_of(c, p)->0 <= 119,
    ensures
        pitch::pitch_of(TRI, p) is Some,
        compile::note_index(pitch::pitch_of(TRI, p)->0, TRI as int, samples)
            == compile::note_index(pitch::pitch_of(c, p)->0, c as int, samples),
{
    tuning::law_triangle_is_an_octave_lower(c, p);
}

/// On the triangle a note stands twelve entries higher in the pitch table than
/// on a pulse.
pub proof fn law_triangle_stands_an_octave_higher(n: u8, c: int, samples: nat)
    requires
        0 <= c < 2,
        24 <= n <= 107,
    ensures
        compile::note_index(n, 2, samples) == compile::note_index(n, c, samples) + 12,
{
}

/// The event that comes before a note, for the effect of its cell.
pub open spec fn effect_of(cmd: u8, p: u8, e: Event) -> bool {
    let letter = if 97 <= cmd <= 122 {
        cmd - 32
    } else {
        cmd as int
    };
    if letter == 'R' as int {
        e == Event::Retrig(p)
    } else if letter == 'D' as int {
        e matches Event::Duty(d) && d < 4 && exists|q: int| p == #[trigger] (4 * q) + d
    } else if letter == 'S' as int {
        e == Event::Slide(p)
    } else if letter == 'V' as int {
        e matches Event::Vibrato { depth, rate } && rate < 16 && p == 16 * depth + rate
    } else if letter == 'A' as int {
        e matches Event::Arp { x, y } && y < 16 && p == 16 * x + y
    } else {
        letter == 'E' as int && e == Event::EnvReset
    }
}

/// A note's effect is said right before the note, and its parameter is kept:
/// both halves of it where it has two.
pub proof fn law_effects_come_before_their_notes(s: SongView, p: int, ch: int, step: nat)
    requires
        0 <= p < s.phrases.len(),
        0 <= ch < CHANNELS,
        step < STEPS_PER_PHRASE,
        1 <= s.channel_length[ch] <= STEPS_PER_PHRASE,
        played_cell(s, p, ch, step as int).note is Some,
    ensures
        ({
            let ev = compile::lowered(s).patterns[p][ch][step as int];
            let k = ev.len() as int;
            &&& k >= 1 && ev[k - 1] is Note
            &&& forall|i: int| 0 <= i < k - 1 ==> !((#[trigger] ev[i]) is Note) && !(ev[i] is Off)
            &&& played_cell(s, p, ch, step as int).fx matches Some((cmd, q)) ==> ((cmd == 'R' as u8
                || cmd == 'D' as u8 || cmd == 'S' as u8 || cmd == 'V' as u8 || cmd == 'A' as u8 || cmd
                == 'E' as u8) ==> k >= 2 && effect_of(cmd, q, ev[k - 2]))
        }),
{
    let samples = compile::sample_count(s);
    let len = s.channel_length[ch];
    let phrase = s.phrases[p];
    lemma_channel_prefix(phrase, len, ch, samples, step + 1, STEPS_PER_PHRASE as nat);
    let all = compile::channel_events(phrase, len, ch, samples, STEPS_PER_PHRASE as nat).1;
    let (l, rows) = compile::channel_events(phrase, len, ch, samples, step);
    let next = compile::channel_events(phrase, len, ch, samples, step + 1).1;
    assert(next[step as int] == all[step as int]);
    lemma_channel_prefix(phrase, len, ch, samples, step, step);
    let x = compile::cell_at(phrase, len, ch, step as int);
    let n = x.note->0;
    let ev = compile::note_events(l, x, n, ch, samples);
    assert(compile::lowered(s).patterns[p][ch][step as int] == ev);
    if let Some((cmd, q)) = x.fx {
        assert(q as int == 4 * (q as int / 4) + q % 4);
    }
}

/// An effect means the same in either case.
pub proof fn law_effect_letters_have_no_case(cmd: u8, p: u8)
    requires
        'A' as u8 <= cmd <= 'Z' as u8,
    ensures
        compile::fx_event((cmd + 32) as u8, p) == compile::fx_event(cmd, p),
{
}

/// How many phrases the first `k` slots of an arrangement play.
pub open spec fn phrases_before(s: SongView, k: nat) -> nat
    decreases k,
{
    if k == 0 {
        0
    } else {
        phrases_before(s, (k - 1) as nat) + s.chains[s.arrangement[k - 1] as int].phrases.len()
    }
}

/// An arrangement is played slot by slot, each chain from its first phrase to
/// its last, and goes back to the slot that it loops to.
pub proof fn law_arrangements_are_played_in_order(s: SongView, slot: int, i: int)
    requires
        forall|j: int|
            0 <= j < s.arrangement.len() ==> (#[trigger] s.arrangement[j]) < s.chains.len(),
        0 <= slot < s.arrangement.len(),
        0 <= i < s.chains[s.arrangement[slot] as int].phrases.len(),
    ensures
        ({
            let l = compile::lowered(s);
            let at = phrases_before(s, slot as nat) + i;
            &&& l.order.len() == phrases_before(s, s.arrangement.len())
            &&& at < l.order.len()
            &&& l.order[at] == s.chains[s.arrangement[slot] as int].phrases[i]
            &&& s.arr_loop < s.arrangement.len() && phrases_before(s, s.arr_loop as nat)
                < l.order.len() && l.order.len() <= usize::MAX ==> l.loop_pos == phrases_before(
                s,
                s.arr_loop as nat,
            )
        }),
{
    lemma_played(s, s.arrangement.len(), slot, i);
    if s.arr_loop < s.arrangement.len() {
        lemma_played_len(s, s.arr_loop as nat);
    }
}

proof fn lemma_played_len(s: SongView, k: nat)
    requires
        k <= s.arrangement.len(),
        forall|j: int|
            0 <= j < s.arrangement.len() ==> (#[trigger] s.arrangement[j]) < s.chains.len(),
    ensures
        song::played(s, k).len() == phrases_before(s, k),
    decreases k,
{
    if k > 0 {
        lemma_played_len(s, (k - 1) as nat);
        assert(s.arrangement[k - 1] < s.chains.len());
    }
}

proof fn lemma_played(s: SongView, k: nat, slot: int, i: int)
    requires
        k <= s.arrangement.len(),
        forall|j: int|
            0 <= j < s.arrangement.len() ==> (#[trigger] s.arrangement[j]) < s.chains.len(),
        0 <= slot < k,
        0 <= i < s.chains[s.arrangement[slot] as int].phrases.len(),
    ensures
        song::played(s, k).len() == phrases_before(s, k),
        phrases_before(s, slot as nat) + i < phrases_before(s, k),
        song::played(s, k)[phrases_before(s, slot as nat) + i].0
            == s.chains[s.arrangement[slot] as int].phrases[i],
    decreases k,
{
    lemma_played_len(s, (k - 1) as nat);
    lemma_played_len(s, k);
    assert(s.arrangement[k - 1] < s.chains.len());
    if slot < k - 1 {
        lemma_played(s, (k - 1) as nat, slot, i);
    }
}

/// Without an arrangement a song plays its order, or all its phrases one after
/// the other, and every instrument keeps its envelope. Its duty is one of
/// four, no lower for a higher duty.
pub proof fn law_lowering_keeps_the_song(s: SongView, i: int, j: int)
    requires
        0 <= i < s.instruments.len(),
        0 <= j < s.instruments.len(),
    ensures
        ({
            let l = compile::lowered(s);
            let a = s.instruments[i];
            let b = l.instruments[i];
            &&& l.bpm == s.bpm && l.artist == s.artist && l.copyright == s.copyright
            &&& s.title.len() > 0 ==> l.title == s.title
            &&& l.patterns.len() == s.phrases.len() && l.instruments.len() == s.instruments.len()
            &&& s.arrangement.len() == 0 && s.order.len() > 0 ==> l.order == s.order && (s.loop_pos
                < s.order.len() ==> l.loop_pos == s.loop_pos)
            &&& s.arrangement.len() == 0 && s.order.len() == 0 && s.phrases.len() <= usize::MAX ==> {
                &&& l.order.len() == s.phrases.len()
                &&& forall|k: int| 0 <= k < l.order.len() ==> #[trigger] l.order[k] == k
            }
            &&& a.attack_ms == b.attack_ms && a.decay_ms == b.decay_ms && a.sustain == b.sustain
            &&& a.release_ms == b.release_ms && a.volume == b.volume && b.duty < 4
            &&& a.duty <= s.instruments[j].duty ==> b.duty <= l.instruments[j].duty
            &&& a.duty == 125 ==> b.duty == 0
            &&& a.duty == 250 ==> b.duty == 1
            &&& a.duty == 500 ==> b.duty == 2
            &&& a.duty == 750 ==> b.duty == 3
        }),
{
}

} // verus!
