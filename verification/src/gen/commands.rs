//! What the generator commands write: their notes on the channel that is
//! named, and nothing elsewhere.

use vstd::prelude::*;

use crate::gen;
use crate::gen::chord;
use crate::gen::dispatch;
use crate::gen::musical;
use crate::gen::patterns;
use crate::gen::patterns::{ArpPattern, BassStyle};
use crate::gen::Channel;
use crate::song::{Cell, SongView, CHANNELS, STEPS_PER_PHRASE};
use crate::text;

verus! {

/// A song whose current phrase exists and is whole.
pub open spec fn is_ready(s: SongView) -> bool {
    &&& s.current_phrase < s.phrases.len()
    &&& s.phrases[s.current_phrase as int].len() == STEPS_PER_PHRASE
    &&& forall|i: int|
        0 <= i < STEPS_PER_PHRASE ==> (#[trigger] s.phrases[s.current_phrase as int][i]).len()
            == CHANNELS
}

/// Where a channel stands in a row, from the left.
pub open spec fn place(c: Channel) -> int {
    match c {
        Channel::Pu1 => 0,
        Channel::Pu2 => 1,
        Channel::Tri => 2,
        Channel::Noi => 3,
        Channel::Dpcm => 4,
    }
}

pub open spec fn cell(s: SongView, i: int, c: int) -> Cell {
    s.phrases[s.current_phrase as int][i][c]
}

/// Whether two songs differ in one channel of the current phrase at most.
pub open spec fn only_on(a: SongView, b: SongView, c: int) -> bool {
    &&& b == (SongView { phrases: b.phrases, ..a })
    &&& b.phrases.len() == a.phrases.len()
    &&& forall|p: int|
        0 <= p < a.phrases.len() && p != a.current_phrase ==> #[trigger] b.phrases[p]
            == a.phrases[p]
    &&& forall|i: int, k: int|
        0 <= i < STEPS_PER_PHRASE && 0 <= k < CHANNELS && k != c ==> #[trigger] cell(b, i, k)
            == cell(a, i, k)
}

/// `euclid` strikes the named channel just where its pattern of so many hits
/// in so many steps does, turned by the offset, on a note that the channel
/// plays, and leaves the rest of the song.
pub proof fn law_euclid_fills_the_named_channel(
    s: SongView,
    ch: Seq<char>,
    k: Seq<char>,
    n: Seq<char>,
    off: Seq<char>,
    i: int,
)
    requires
        is_ready(s),
        gen::channel_named(ch) is Some,
        text::parse_uint(k, 10, usize::MAX as nat) is Some,
        text::parse_uint(n, 10, usize::MAX as nat) is Some,
        text::parse_uint(off, 10, usize::MAX as nat) is Some,
        1 <= text::parse_uint(n, 10, usize::MAX as nat)->0 <= STEPS_PER_PHRASE,
        0 <= i < STEPS_PER_PHRASE,
    ensures
        ({
            let (said, b) = dispatch::euclid_outcome(s, ch, k, n, off);
            let c = gen::channel_named(ch)->0;
            let hits = text::parse_uint(k, 10, usize::MAX as nat)->0;
            let steps = text::parse_uint(n, 10, usize::MAX as nat)->0;
            let by = text::parse_uint(off, 10, usize::MAX as nat)->0;
            let x = cell(b, i, place(c));
            &&& said is Ok
            &&& only_on(s, b, place(c))
            &&& x.note is Some <==> i < steps && gen::euclid_pattern(hits, steps, by)[i]
            &&& x.note is Some ==> x.note->0 == (match c {
                Channel::Pu1 => 69int,
                Channel::Pu2 => 64,
                Channel::Tri => 45,
                Channel::Noi => 60,
                Channel::Dpcm => 60,
            })
            &&& x.note is Some && c != Channel::Dpcm ==> x.instr == place(c)
        }),
{
    let c = gen::channel_named(ch)->0;
    assert(gen::channel_index(c) == place(c));
}

/// `scale` plays the named channel in the named key and mode, in the octaves
/// of that channel: two from the fourth on for the first pulse, and lower for
/// the others.
pub proof fn law_scale_fills_the_named_channel(
    s: SongView,
    ch: Seq<char>,
    key: Seq<char>,
    mode: Seq<char>,
    density: Seq<char>,
    seed: u64,
    i: int,
)
    requires
        is_ready(s),
        gen::channel_named(ch) is Some,
        gen::key_named(key) is Some,
        gen::mode_named(mode) is Some,
        text::parse_odds(density) is Some,
        0 <= i < STEPS_PER_PHRASE,
    ensures
        ({
            let (said, b) = dispatch::scale_outcome(s, ch, key, mode, density, seed);
            let c = gen::channel_named(ch)->0;
            let x = cell(b, i, place(c));
            let low = match c {
                Channel::Pu1 => 4i32,
                Channel::Pu2 => 3,
                Channel::Tri => 2,
                Channel::Noi => 3,
                Channel::Dpcm => 4,
            };
            let octaves = if c == Channel::Dpcm {
                1u32
            } else {
                2
            };
            &&& said is Ok
            &&& only_on(s, b, place(c))
            &&& musical::is_in_mode(
                x,
                gen::key_named(key)->0,
                gen::mode_named(mode)->0,
                low,
                octaves,
            )
        }),
{
    let c = gen::channel_named(ch)->0;
    assert(gen::channel_index(c) == place(c));
    let (low, high) = patterns::octaves_of(c);
    let odds = gen::odds::share_threshold(text::parse_odds(density)->0) as u64;
    let instr = patterns::default_hit(c).1;
    musical::law_melodies_keep_to_their_mode(
        STEPS_PER_PHRASE as nat,
        seed,
        gen::key_named(key)->0,
        gen::mode_named(mode)->0,
        odds,
        low,
        patterns::octave_span(low, high),
        instr,
    );
    let col = patterns::scale_steps(
        STEPS_PER_PHRASE as nat,
        seed,
        gen::key_named(key)->0,
        gen::mode_named(mode)->0,
        odds,
        low,
        patterns::octave_span(low, high),
        instr,
    ).0;
    let b = dispatch::scale_outcome(s, ch, key, mode, density, seed).1;
    assert(cell(b, i, place(c)) == col[i]);
}

/// `arp` plays tones of its chord on the channel that is asked for, the second
/// pulse where none is, and leaves the rest of the song.
pub proof fn law_arp_plays_its_chord(
    s: SongView,
    sym: Seq<char>,
    rest: Seq<Seq<char>>,
    kv: Seq<(Seq<char>, Seq<char>)>,
    seed: u64,
    i: int,
)
    requires
        is_ready(s),
        dispatch::arp_outcome(s, sym, rest, kv, seed).0 is Ok,
        0 <= i < STEPS_PER_PHRASE,
    ensures
        ({
            let b = dispatch::arp_outcome(s, sym, rest, kv, seed).1;
            let (key, mode) = dispatch::key_mode(kv)->Ok_0;
            let chord = chord::chord_symbol(sym, key, mode)->0;
            let c = dispatch::channel_or(kv, "pu2"@)->Ok_0;
            let octaves = dispatch::octaves_or(kv)->Ok_0;
            let x = cell(b, i, place(c));
            &&& only_on(s, b, place(c))
            &&& x.note matches Some(n) ==> musical::is_chord_tone(chord, octaves, n)
        }),
{
    let (key, mode) = dispatch::key_mode(kv)->Ok_0;
    let chord = chord::chord_symbol(sym, key, mode)->0;
    let c = dispatch::channel_or(kv, "pu2"@)->Ok_0;
    let octaves = dispatch::octaves_or(kv)->Ok_0;
    let len = dispatch::arp_len(rest, kv)->Ok_0;
    let rate = dispatch::number_or(
        kv,
        dispatch::NumberKey::Rate,
        1,
        usize::MAX as nat,
    )->Ok_0;
    let p = patterns::arp_pattern(dispatch::arp_word(rest, kv))->0;
    let instr = patterns::default_hit(c).1;
    assert(gen::channel_index(c) == place(c));
    let b = dispatch::arp_outcome(s, sym, rest, kv, seed).1;
    let col = patterns::arp_column(chord, p, len, rate, octaves, instr, seed);
    assert(cell(b, i, place(c)) == col[i]);
    assert(chord.intervals.len() > 0);
    let r: nat = if rate < 1 {
        1
    } else {
        rate
    };
    assert(col == patterns::arp_column(chord, p, len, r, octaves, instr, seed));
    musical::law_arpeggios_play_chord_tones(chord, p, len, r, octaves, instr, seed, i);
}

/// Four on the floor: a kick on each beat, a snare half-way between two, and
/// hats on the steps that are left, all on noise.
pub proof fn law_four_on_the_floor(s: int)
    requires
        0 <= s < STEPS_PER_PHRASE,
    ensures
        ({
            let x = patterns::four_column()[s];
            &&& s % 4 == 0 ==> x.note == Some(36u8)
            &&& s % 4 == 2 ==> x.note == Some(50u8)
            &&& s % 2 == 1 ==> x.note == Some(60u8)
            &&& x.instr == 3
        }),
{
}

/// The words for an arpeggio's way and for a bass line's style mean what they
/// say.
pub proof fn law_words_name_their_patterns()
    ensures
        patterns::arp_pattern("up"@) == Some(ArpPattern::Up),
        patterns::arp_pattern("down"@) == Some(ArpPattern::Down),
        patterns::arp_pattern("updown"@) == Some(ArpPattern::UpDown),
        patterns::arp_pattern("pingpong"@) == Some(ArpPattern::UpDown),
        patterns::arp_pattern("random"@) == Some(ArpPattern::Random),
        patterns::bass_style("walking"@) == Some(BassStyle::Walking),
        patterns::bass_style("walk"@) == Some(BassStyle::Walking),
        patterns::bass_style("arpeggio"@) == Some(BassStyle::Arpeggio),
        patterns::bass_style("arp"@) == Some(BassStyle::Arpeggio),
        patterns::bass_style("root_fifth"@) == Some(BassStyle::RootFifth),
        patterns::bass_style("root5"@) == Some(BassStyle::RootFifth),
        patterns::bass_style("octaves"@) == Some(BassStyle::Octaves),
        patterns::bass_style("roots"@) == Some(BassStyle::Roots),
        patterns::bass_style("root"@) == Some(BassStyle::Roots),
{
    reveal_strlit("up");
    reveal_strlit("down");
    reveal_strlit("updown");
    reveal_strlit("pingpong");
    reveal_strlit("random");
    reveal_strlit("walking");
    reveal_strlit("walk");
    reveal_strlit("arpeggio");
    reveal_strlit("arp");
    reveal_strlit("root_fifth");
    reveal_strlit("root5");
    reveal_strlit("octaves");
    reveal_strlit("roots");
    reveal_strlit("root");
    assert("up"@.len() == 2 && "down"@.len() == 4 && "updown"@.len() == 6);
    assert("pingpong"@.len() == 8 && "random"@.len() == 6);
    assert("walking"@.len() == 7 && "walk"@.len() == 4 && "arpeggio"@.len() == 8);
    assert("arp"@.len() == 3 && "root_fifth"@.len() == 10 && "root5"@.len() == 5);
    assert("octaves"@.len() == 7 && "roots"@.len() == 5 && "root"@.len() == 4);
    assert("updown"@[0] == 'u' && "random"@[0] == 'r');
    assert("walking"@[0] == 'w' && "octaves"@[0] == 'o' && "walk"@[0] == 'w' && "root"@[0] == 'r');
    assert("root5"@[4] == '5' && "roots"@[4] == 's');
}

} // verus!
