//! What the words of a style file set: each the thing that it names, and
//! nothing else.

use vstd::prelude::*;

use crate::style::parser;
use crate::style::parser::InstrView;
use crate::style::{DrumsView, RiffView, SectionView, StyleView};
use crate::text;

verus! {

/// The words tell themselves apart by length and letters.
proof fn lemma_words()
    ensures
        "rhythm"@.len() == 6 && "rhythm"@[0] == 'r',
        "octave"@.len() == 6 && "octave"@[0] == 'o',
        "accent"@.len() == 6 && "accent"@[0] == 'a',
        "contour"@.len() == 7 && "contour"@[0] == 'c',
        "harmony"@.len() == 7 && "harmony"@[0] == 'h',
        "bass"@.len() == 4 && "bass"@[0] == 'b' && "bass"@[2] == 's',
        "lead"@.len() == 4 && "lead"@[0] == 'l',
        "harm"@.len() == 4 && "harm"@[0] == 'h',
        "pair"@.len() == 4 && "pair"@[0] == 'p',
        "bassi"@.len() == 5 && "bassi"@[0] == 'b',
        "slide"@.len() == 5 && "slide"@[0] == 's' && "slide"@[1] == 'l',
        "fx"@.len() == 2,
        "bars"@.len() == 4 && "bars"@[0] == 'b',
        "riffs"@.len() == 5 && "riffs"@[0] == 'r',
        "drums"@.len() == 5 && "drums"@[0] == 'd',
        "repeat"@.len() == 6,
        "motif"@.len() == 5 && "motif"@[0] == 'm',
        "end"@.len() == 3,
        "swell"@.len() == 5 && "swell"@[0] == 's',
{
    reveal_strlit("rhythm");
    reveal_strlit("octave");
    reveal_strlit("accent");
    reveal_strlit("contour");
    reveal_strlit("harmony");
    reveal_strlit("bass");
    reveal_strlit("lead");
    reveal_strlit("harm");
    reveal_strlit("pair");
    reveal_strlit("bassi");
    reveal_strlit("slide");
    reveal_strlit("fx");
    reveal_strlit("bars");
    reveal_strlit("riffs");
    reveal_strlit("drums");
    reveal_strlit("repeat");
    reveal_strlit("motif");
    reveal_strlit("end");
    reveal_strlit("swell");
}

/// The shorter words of instruments, noise, tempo and drums.
proof fn lemma_short_words()
    ensures
        "a"@.len() == 1 && "a"@[0] == 'a' && "d"@.len() == 1 && "d"@[0] == 'd',
        "r"@.len() == 1 && "r"@[0] == 'r' && "s"@.len() == 1 && "s"@[0] == 's',
        "duty"@.len() == 4 && "duty"@[0] == 'd' && "vol"@.len() == 3 && "name"@.len() == 4,
        "name"@[0] == 'n',
        "hat"@.len() == 3 && "open"@.len() == 4 && "crash"@.len() == 5,
        "min"@.len() == 3 && "min"@[1] == 'i' && "max"@.len() == 3 && "max"@[1] == 'a',
        "noi"@.len() == 3 && "dpcm"@.len() == 4,
{
    reveal_strlit("a");
    reveal_strlit("d");
    reveal_strlit("r");
    reveal_strlit("s");
    reveal_strlit("duty");
    reveal_strlit("vol");
    reveal_strlit("name");
    reveal_strlit("hat");
    reveal_strlit("open");
    reveal_strlit("crash");
    reveal_strlit("min");
    reveal_strlit("max");
    reveal_strlit("noi");
    reveal_strlit("dpcm");
}

/// Each word of a riff sets what it names. A rhythm strikes where it has an
/// `x`, an accent is two digits, the first for the beat.
pub proof fn law_riff_words_set_what_they_name(
    r: RiffView,
    k: Seq<char>,
    v: Seq<char>,
    names: Seq<(Seq<char>, u8)>,
    i: int,
)
    requires
        parser::riff_pair(r, k, v, names) is Ok,
        0 <= i < v.len(),
    ensures
        ({
            let u = parser::riff_pair(r, k, v, names)->Ok_0;
            &&& u.name == r.name
            &&& k == "rhythm"@ ==> u.rhythm.len() == v.len() && (u.rhythm[i] <==> v[i] == 'x' || v[i]
                == 'X')
            &&& k != "rhythm"@ ==> u.rhythm == r.rhythm
            &&& k == "contour"@ ==> u.contour == v
            &&& k != "contour"@ ==> u.contour == r.contour
            &&& k == "harmony"@ ==> u.harmony == v
            &&& k != "harmony"@ ==> u.harmony == r.harmony
            &&& k == "bass"@ ==> u.bass == v
            &&& k != "bass"@ ==> u.bass == r.bass
            &&& k == "lead"@ ==> parser::instr_value(names, v) == Ok::<u8, parser::StyleFault>(
                u.lead_instr,
            )
            &&& k != "lead"@ ==> u.lead_instr == r.lead_instr
            &&& k == "harm"@ ==> parser::instr_value(names, v) == Ok::<u8, parser::StyleFault>(
                u.harm_instr,
            )
            &&& k != "harm"@ ==> u.harm_instr == r.harm_instr
            &&& k == "bassi"@ ==> parser::instr_value(names, v) == Ok::<u8, parser::StyleFault>(
                u.bass_instr,
            )
            &&& k != "bassi"@ ==> u.bass_instr == r.bass_instr
            &&& k == "octave"@ ==> parser::octave_value(v) == Ok::<i32, parser::StyleFault>(
                u.octave,
            )
            &&& k != "octave"@ ==> u.octave == r.octave
            &&& k == "accent"@ ==> v.len() == 2 && u.accent == Some(
                (text::digit_value(v[0]) as u8, text::digit_value(v[1]) as u8),
            )
            &&& k != "accent"@ ==> u.accent == r.accent
            &&& k == "pair"@ ==> u.pair >= 1 && (u.pair > 1 ==> text::parse_uint(
                v,
                10,
                usize::MAX as nat,
            ) == Some(u.pair as nat))
            &&& k != "pair"@ ==> u.pair == r.pair
            &&& k == "fx"@ ==> u.fx == parser::fx_value(v)
            &&& k != "fx"@ ==> u.fx == r.fx
            &&& k == "slide"@ ==> parser::odds_value(v) == Ok::<i32, parser::StyleFault>(u.slide)
            &&& k != "slide"@ ==> u.slide == r.slide
        }),
{
    lemma_words();
}

/// Each word of a section sets what it names.
pub proof fn law_section_words_set_what_they_name(s: SectionView, k: Seq<char>, v: Seq<char>)
    requires
        parser::section_pair(s, k, v) is Ok,
    ensures
        ({
            let u = parser::section_pair(s, k, v)->Ok_0;
            &&& u.name == s.name
            &&& k == "bars"@ ==> parser::bars_value(v) == Ok::<Seq<usize>, parser::StyleFault>(
                u.bars,
            )
            &&& k != "bars"@ ==> u.bars == s.bars
            &&& k == "riffs"@ ==> u.riffs == parser::items(v)
            &&& k != "riffs"@ ==> u.riffs == s.riffs
            &&& k == "drums"@ ==> u.drums == parser::items(v)
            &&& k != "drums"@ ==> u.drums == s.drums
            &&& k == "repeat"@ ==> u.repeat >= 1 && (u.repeat > 1 ==> text::parse_uint(
                v,
                10,
                usize::MAX as nat,
            ) == Some(u.repeat as nat))
            &&& k != "repeat"@ ==> u.repeat == s.repeat
            &&& k == "motif"@ ==> parser::odds_value(v) == Ok::<i32, parser::StyleFault>(u.motif)
            &&& k != "motif"@ ==> u.motif == s.motif
            &&& k == "end"@ ==> (u.crash_end <==> v == "crash"@)
            &&& k != "end"@ ==> u.crash_end == s.crash_end
            &&& k == "swell"@ ==> (u.swell <==> v == "1"@ || v == "on"@)
            &&& k != "swell"@ ==> u.swell == s.swell
        }),
{
    lemma_words();
}

/// Each letter of an instrument sets its own parameter.
pub proof fn law_instrument_words_set_what_they_name(
    d: InstrView,
    k: Seq<char>,
    v: Seq<char>,
    slot: u8,
)
    requires
        parser::instr_pair(d, k, v, slot) is Ok,
    ensures
        ({
            let a = d.inst;
            let b = parser::instr_pair(d, k, v, slot)->Ok_0.inst;
            &&& k == "a"@ ==> parser::ms_value(v) == Ok::<u16, parser::StyleFault>(b.attack_ms)
            &&& k != "a"@ ==> b.attack_ms == a.attack_ms
            &&& k == "d"@ ==> parser::ms_value(v) == Ok::<u16, parser::StyleFault>(b.decay_ms)
            &&& k != "d"@ ==> b.decay_ms == a.decay_ms
            &&& k == "r"@ ==> parser::ms_value(v) == Ok::<u16, parser::StyleFault>(b.release_ms)
            &&& k != "r"@ ==> b.release_ms == a.release_ms
            &&& k == "s"@ ==> parser::level_value(v) == Ok::<i32, parser::StyleFault>(b.sustain)
            &&& k != "s"@ ==> b.sustain == a.sustain
            &&& k == "duty"@ ==> parser::level_value(v) == Ok::<i32, parser::StyleFault>(b.duty)
            &&& k != "duty"@ ==> b.duty == a.duty
            &&& k == "vol"@ ==> parser::level_value(v) == Ok::<i32, parser::StyleFault>(b.volume)
            &&& k != "vol"@ ==> b.volume == a.volume
        }),
{
    lemma_short_words();
}

/// The noise sounds, the tempo's bounds and the two drum patterns are set each
/// by its own word.
pub proof fn law_other_words_set_what_they_name(
    st: StyleView,
    d: DrumsView,
    k: Seq<char>,
    v: Seq<char>,
)
    ensures
        parser::noise_pair(st, k, v) matches Ok(u) ==> {
            &&& k == "hat"@ ==> parser::noise_value(v) == Ok::<(u8, u8), parser::StyleFault>(u.hat)
            &&& k != "hat"@ ==> u.hat == st.hat
            &&& k == "open"@ ==> parser::noise_value(v) == Ok::<(u8, u8), parser::StyleFault>(
                u.open_hat,
            )
            &&& k != "open"@ ==> u.open_hat == st.open_hat
            &&& k == "crash"@ ==> parser::noise_value(v) == Ok::<(u8, u8), parser::StyleFault>(
                u.crash,
            )
            &&& k != "crash"@ ==> u.crash == st.crash
        },
        parser::tempo_pair(st, k, v) matches Ok(u) ==> {
            &&& k == "min"@ ==> text::parse_uint(v, 10, u16::MAX as nat) == Some(u.tempo_min as nat)
            &&& k != "min"@ ==> u.tempo_min == st.tempo_min
            &&& k == "max"@ ==> text::parse_uint(v, 10, u16::MAX as nat) == Some(u.tempo_max as nat)
            &&& k != "max"@ ==> u.tempo_max == st.tempo_max
        },
        parser::drums_pair(d, k, v) matches Ok(u) ==> {
            &&& k == "noi"@ ==> u.noi == parser::drum_tokens(v)
            &&& k != "noi"@ ==> u.noi == d.noi
            &&& k == "dpcm"@ ==> u.dpcm == parser::drum_tokens(v)
            &&& k != "dpcm"@ ==> u.dpcm == d.dpcm
        },
{
    lemma_short_words();
}

} // verus!
