//! The `:gen` command: one line of arguments picks a generator, runs it on
//! the current phrase and describes what it did.

use vstd::prelude::*;

use crate::gen;
use crate::gen::automata;
use crate::gen::automata::ListFault;
use crate::gen::chord;
use crate::gen::chord::{Chord, ChordView, ProgressionFault};
use crate::gen::odds;
use crate::gen::patterns;
use crate::gen::patterns::{DrumPreset, DrumView};
use crate::gen::{Channel, Mode};
use crate::song::{Song, SongView, STEPS_PER_PHRASE};
use crate::text;

verus! {

/// The pairs that take a number.
#[derive(Clone, Copy, Debug, PartialEq, Eq, Structural)]
pub enum NumberKey {
    Steps,
    Len,
    Rate,
    Octaves,
    Fills,
    Iterations,
    Rule,
    Width,
}

pub open spec fn number_name(k: NumberKey) -> Seq<char> {
    match k {
        NumberKey::Steps => "steps"@,
        NumberKey::Len => "len"@,
        NumberKey::Rate => "rate"@,
        NumberKey::Octaves => "octaves"@,
        NumberKey::Fills => "fills"@,
        NumberKey::Iterations => "iterations"@,
        NumberKey::Rule => "rule"@,
        NumberKey::Width => "width"@,
    }
}

fn name_number(k: NumberKey) -> (r: &'static str)
    ensures
        r@ == number_name(k),
{
    match k {
        NumberKey::Steps => "steps",
        NumberKey::Len => "len",
        NumberKey::Rate => "rate",
        NumberKey::Octaves => "octaves",
        NumberKey::Fills => "fills",
        NumberKey::Iterations => "iterations",
        NumberKey::Rule => "rule",
        NumberKey::Width => "width",
    }
}

/// Why a `:gen` command was not run.
#[derive(Clone, Copy, Debug, PartialEq, Eq, Structural)]
pub enum GenError {
    /// No such form of the command.
    Usage,
    BadChannel,
    BadHits,
    BadSteps,
    BadOffset,
    BadKey,
    BadMode,
    BadDensity,
    /// A pair whose value is not a number.
    BadNumber(NumberKey),
    BadChord,
    BadLength,
    Progression(ProgressionFault),
    UnknownBassStyle,
    UnknownArpPattern,
    UnknownDrums,
    /// An L-system without a starting text.
    NeedStart,
    NeedRules,
    Rules(ListFault),
    NoteMap(ListFault),
}

// ---------------------------------------------------------------- arguments

/// The text without double quotes at its ends.
pub open spec fn unquote_front(s: Seq<char>) -> Seq<char>
    decreases s.len(),
{
    if s.len() > 0 && s[0] == '"' {
        unquote_front(s.skip(1))
    } else {
        s
    }
}

pub open spec fn unquote_back(s: Seq<char>) -> Seq<char>
    decreases s.len(),
{
    if s.len() > 0 && s.last() == '"' {
        unquote_back(s.drop_last())
    } else {
        s
    }
}

pub open spec fn unquote(s: Seq<char>) -> Seq<char> {
    unquote_back(unquote_front(s))
}

/// The plain words among the first `k` arguments.
pub open spec fn words_of(args: Seq<Seq<char>>, k: nat) -> Seq<Seq<char>>
    decreases k,
{
    if k == 0 {
        Seq::empty()
    } else {
        let a = unquote(args[k - 1]);
        let before = words_of(args, (k - 1) as nat);
        if a.len() == 0 || text::cut_word(a) is Some {
            before
        } else {
            before.push(a)
        }
    }
}

/// The `key=value` pairs among the first `k` arguments.
pub open spec fn pairs_of(args: Seq<Seq<char>>, k: nat) -> Seq<(Seq<char>, Seq<char>)>
    decreases k,
{
    if k == 0 {
        Seq::empty()
    } else {
        let a = unquote(args[k - 1]);
        let before = pairs_of(args, (k - 1) as nat);
        match text::cut_word(a) {
            Some(p) => before.push(p),
            None => before,
        }
    }
}

/// The value of the first pair with a key, from `i` on.
pub open spec fn value_of(ps: Seq<(Seq<char>, Seq<char>)>, key: Seq<char>, i: nat) -> Option<
    Seq<char>,
>
    decreases ps.len() - i,
{
    if i >= ps.len() {
        None
    } else if ps[i as int].0 == key {
        Some(ps[i as int].1)
    } else {
        value_of(ps, key, i + 1)
    }
}

pub open spec fn value_or(
    ps: Seq<(Seq<char>, Seq<char>)>,
    key: Seq<char>,
    default: Seq<char>,
) -> Seq<char> {
    match value_of(ps, key, 0) {
        Some(v) => v,
        None => default,
    }
}

fn unquoted<'a>(s: &'a [char]) -> (r: &'a [char])
    ensures
        r@ == unquote(s@),
{
    let mut k: usize = 0;
    assert(s@.skip(0) =~= s@);
    while k < s.len() && s[k] == '"'
        invariant
            k <= s@.len(),
            unquote_front(s@) == unquote_front(s@.skip(k as int)),
        decreases s@.len() - k,
    {
        assert(s@.skip(k as int).skip(1) =~= s@.skip(k + 1));
        k += 1;
    }
    let t: &[char] = text::tail(s, k);
    let mut e: usize = t.len();
    assert(t@.take(e as int) =~= t@);
    while e > 0 && t[e - 1] == '"'
        invariant
            e <= t@.len(),
            unquote_back(t@) == unquote_back(t@.take(e as int)),
        decreases e,
    {
        assert(t@.take(e as int).drop_last() =~= t@.take(e - 1));
        e -= 1;
    }
    text::head(t, e)
}

/// Splits arguments into plain words and `key=value` pairs. Quotes around
/// arguments are dropped.
fn split_args<'a>(args: &Vec<&'a [char]>) -> (r: (
    Vec<&'a [char]>,
    Vec<(&'a [char], &'a [char])>,
))
    ensures
        text::views(r.0@) == words_of(text::views(args@), args@.len()),
        text::pair_views(r.1@) == pairs_of(text::views(args@), args@.len()),
        r.0@.len() <= args@.len(),
{
    let ghost all = text::views(args@);
    let mut words: Vec<&'a [char]> = Vec::new();
    let mut pairs: Vec<(&'a [char], &'a [char])> = Vec::new();
    assert(text::views(words@) =~= Seq::<Seq<char>>::empty());
    assert(text::pair_views(pairs@) =~= Seq::<(Seq<char>, Seq<char>)>::empty());
    for i in 0..args.len()
        invariant
            all == text::views(args@),
            text::views(words@) == words_of(all, i as nat),
            text::pair_views(pairs@) == pairs_of(all, i as nat),
            words@.len() <= i,
    {
        assert(all[i as int] == args@[i as int]@);
        let a: &'a [char] = unquoted(args[i]);
        match text::split_at_eq(a) {
            Some((k, v)) => {
                let ghost before = pairs@;
                pairs.push((k, v));
                assert(text::pair_views(pairs@) =~= text::pair_views(before).push((k@, v@)));
            },
            None => {
                if a.len() > 0 {
                    proof {
                        text::lemma_views_push(words@, a);
                    }
                    words.push(a);
                }
            },
        }
    }
    (words, pairs)
}

fn kv_get<'a>(ps: &Vec<(&'a [char], &'a [char])>, key: &str) -> (r: Option<&'a [char]>)
    ensures
        match r {
            Some(v) => value_of(text::pair_views(ps@), key@, 0) == Some(v@),
            None => value_of(text::pair_views(ps@), key@, 0) is None,
        },
{
    let ghost all = text::pair_views(ps@);
    let mut i: usize = 0;
    while i < ps.len()
        invariant
            i <= ps@.len(),
            all == text::pair_views(ps@),
            value_of(all, key@, 0) == value_of(all, key@, i as nat),
        decreases ps@.len() - i,
    {
        assert(all[i as int] == (ps@[i as int].0@, ps@[i as int].1@));
        if text::is_lit(ps[i].0, key) {
            return Some(ps[i].1);
        }
        i += 1;
    }
    None
}

/// A value, or the characters of a default.
fn kv_text(ps: &Vec<(&[char], &[char])>, key: &str, default: &str) -> (r: Vec<char>)
    ensures
        r@ == value_or(text::pair_views(ps@), key@, default@),
{
    match kv_get(ps, key) {
        Some(v) => text::copy_of(v),
        None => text::chars_of(default),
    }
}

/// An unsigned number of a pair, or a default.
pub open spec fn number_or(
    ps: Seq<(Seq<char>, Seq<char>)>,
    key: NumberKey,
    default: nat,
    max: nat,
) -> Result<nat, GenError> {
    match value_of(ps, number_name(key), 0) {
        None => Ok(default),
        Some(v) => match text::parse_uint(v, 10, max) {
            Some(n) => Ok(n),
            None => Err(GenError::BadNumber(key)),
        },
    }
}

fn kv_num(ps: &Vec<(&[char], &[char])>, key: NumberKey, default: u64, max: u64) -> (r: Result<
    u64,
    GenError,
>)
    requires
        default <= max,
    ensures
        match r {
            Ok(n) => number_or(text::pair_views(ps@), key, default as nat, max as nat) == Ok::<
                nat,
                GenError,
            >(n as nat) && n <= max,
            Err(e) => number_or(text::pair_views(ps@), key, default as nat, max as nat) == Err::<
                nat,
                GenError,
            >(e),
        },
{
    match kv_get(ps, name_number(key)) {
        None => Ok(default),
        Some(v) => match text::read_uint(v, 10, max) {
            Some(n) => Ok(n),
            None => Err(GenError::BadNumber(key)),
        },
    }
}

/// Key and mode from `key=Am` and `mode=minor`; A minor by default.
pub open spec fn key_mode(ps: Seq<(Seq<char>, Seq<char>)>) -> Result<(u8, Mode), GenError> {
    match chord::key_spec(value_or(ps, "key"@, "Am"@)) {
        None => Err(GenError::BadKey),
        Some((k, m)) => match value_of(ps, "mode"@, 0) {
            None => Ok((k, m)),
            Some(v) => match gen::mode_named(v) {
                Some(m2) => Ok((k, m2)),
                None => Err(GenError::BadMode),
            },
        },
    }
}

fn key_mode_from_kv(ps: &Vec<(&[char], &[char])>) -> (r: Result<(u8, Mode), GenError>)
    ensures
        r == key_mode(text::pair_views(ps@)),
{
    let key: Vec<char> = kv_text(ps, "key", "Am");
    match chord::read_key_spec(key.as_slice()) {
        None => Err(GenError::BadKey),
        Some((k, m)) => match kv_get(ps, "mode") {
            None => Ok((k, m)),
            Some(v) => match gen::read_mode(v) {
                Some(m2) => Ok((k, m2)),
                None => Err(GenError::BadMode),
            },
        },
    }
}

/// A refused command leaves the song as it was.
pub open spec fn refused(e: GenError, s: SongView) -> (Result<Seq<char>, GenError>, SongView) {
    (Err(e), s)
}

/// A result and a song against what they should be.
pub open spec fn meets(
    r: Result<String, GenError>,
    s: SongView,
    want: (Result<Seq<char>, GenError>, SongView),
) -> bool {
    &&& s == want.1
    &&& match r {
        Ok(t) => want.0 == Ok::<Seq<char>, GenError>(t@),
        Err(e) => want.0 == Err::<Seq<char>, GenError>(e),
    }
}

// ---------------------------------------------------------------- euclid and scale

pub open spec fn euclid_outcome(
    s: SongView,
    ch: Seq<char>,
    k: Seq<char>,
    n: Seq<char>,
    off: Seq<char>,
) -> (Result<Seq<char>, GenError>, SongView) {
    match gen::channel_named(ch) {
        None => refused(GenError::BadChannel, s),
        Some(c) => match (
            text::parse_uint(k, 10, usize::MAX as nat),
            text::parse_uint(n, 10, usize::MAX as nat),
            text::parse_uint(off, 10, usize::MAX as nat),
        ) {
            (None, _, _) => refused(GenError::BadHits, s),
            (_, None, _) => refused(GenError::BadSteps, s),
            (_, _, None) => refused(GenError::BadOffset, s),
            (Some(k), Some(n), Some(off)) => {
                let (note, instr) = patterns::default_hit(c);
                (
                    Ok(
                        "euclid "@ + text::dec(k) + " in "@ + text::dec(n) + " on "@
                            + gen::channel_label(c),
                    ),
                    patterns::with_current(
                        s,
                        patterns::with_channel(
                            patterns::current(s),
                            gen::channel_index(c) as int,
                            patterns::euclid_column(k, n, off, note, instr),
                        ),
                    ),
                )
            },
        },
    }
}

fn run_euclid(song: &mut Song, ch: &[char], k: &[char], n: &[char], off: &[char]) -> (r: Result<
    String,
    GenError,
>)
    requires
        old(song).current_phrase < old(song).phrases@.len(),
    ensures
        meets(r, final(song)@, euclid_outcome(old(song)@, ch@, k@, n@, off@)),
{
    let c: Channel = match gen::read_channel(ch) {
        Some(c) => c,
        None => {
            return Err(GenError::BadChannel);
        },
    };
    let k: usize = match text::read_uint(k, 10, usize::MAX as u64) {
        Some(k) => k as usize,
        None => {
            return Err(GenError::BadHits);
        },
    };
    let n: usize = match text::read_uint(n, 10, usize::MAX as u64) {
        Some(n) => n as usize,
        None => {
            return Err(GenError::BadSteps);
        },
    };
    let off: usize = match text::read_uint(off, 10, usize::MAX as u64) {
        Some(o) => o as usize,
        None => {
            return Err(GenError::BadOffset);
        },
    };
    let (note, instr): (u8, u8) = patterns::default_note_instr(c);
    patterns::euclid(song, c, k, n, off, note, instr);
    let mut m: Vec<char> = text::chars_of("euclid ");
    text::put_dec(&mut m, k as u64);
    text::put_str(&mut m, " in ");
    text::put_dec(&mut m, n as u64);
    text::put_str(&mut m, " on ");
    text::put_str(&mut m, c.label());
    Ok(text::string_of(m.as_slice()))
}

pub open spec fn mode_label(m: Mode) -> Seq<char> {
    match m {
        Mode::Major => "Major"@,
        Mode::Minor => "Minor"@,
        Mode::Dorian => "Dorian"@,
        Mode::Phrygian => "Phrygian"@,
        Mode::Lydian => "Lydian"@,
        Mode::Mixolydian => "Mixolydian"@,
        Mode::Locrian => "Locrian"@,
        Mode::HarmonicMinor => "HarmonicMinor"@,
        Mode::PentMajor => "PentMajor"@,
        Mode::PentMinor => "PentMinor"@,
        Mode::Blues => "Blues"@,
    }
}

fn label_mode(m: Mode) -> (r: &'static str)
    ensures
        r@ == mode_label(m),
{
    match m {
        Mode::Major => "Major",
        Mode::Minor => "Minor",
        Mode::Dorian => "Dorian",
        Mode::Phrygian => "Phrygian",
        Mode::Lydian => "Lydian",
        Mode::Mixolydian => "Mixolydian",
        Mode::Locrian => "Locrian",
        Mode::HarmonicMinor => "HarmonicMinor",
        Mode::PentMajor => "PentMajor",
        Mode::PentMinor => "PentMinor",
        Mode::Blues => "Blues",
    }
}

pub open spec fn scale_outcome(
    s: SongView,
    ch: Seq<char>,
    key: Seq<char>,
    mode: Seq<char>,
    density: Seq<char>,
    seed: u64,
) -> (Result<Seq<char>, GenError>, SongView) {
    match gen::channel_named(ch) {
        None => refused(GenError::BadChannel, s),
        Some(c) => match gen::key_named(key) {
            None => refused(GenError::BadKey, s),
            Some(k) => match gen::mode_named(mode) {
                None => refused(GenError::BadMode, s),
                Some(m) => match text::parse_odds(density) {
                    None => refused(GenError::BadDensity, s),
                    Some(d) => {
                        let (low, high) = patterns::octaves_of(c);
                        (
                            Ok("scale "@ + mode_label(m) + " on "@ + gen::channel_label(c)),
                            patterns::with_current(
                                s,
                                patterns::with_channel(
                                    patterns::current(s),
                                    gen::channel_index(c) as int,
                                    patterns::scale_steps(
                                        STEPS_PER_PHRASE as nat,
                                        seed,
                                        k,
                                        m,
                                        odds::share_threshold(d) as u64,
                                        low,
                                        patterns::octave_span(low, high),
                                        patterns::default_hit(c).1,
                                    ).0,
                                ),
                            ),
                        )
                    },
                },
            },
        },
    }
}

fn run_scale(
    song: &mut Song,
    ch: &[char],
    key: &[char],
    mode: &[char],
    density: &[char],
    seed: u64,
) -> (r: Result<String, GenError>)
    requires
        old(song).current_phrase < old(song).phrases@.len(),
    ensures
        meets(r, final(song)@, scale_outcome(old(song)@, ch@, key@, mode@, density@, seed)),
{
    let c: Channel = match gen::read_channel(ch) {
        Some(c) => c,
        None => {
            return Err(GenError::BadChannel);
        },
    };
    let k: u8 = match gen::read_key(key) {
        Some(k) => k,
        None => {
            return Err(GenError::BadKey);
        },
    };
    let m: Mode = match gen::read_mode(mode) {
        Some(m) => m,
        None => {
            return Err(GenError::BadMode);
        },
    };
    let d: i32 = match text::read_odds(density) {
        Some(d) => d,
        None => {
            return Err(GenError::BadDensity);
        },
    };
    let (_, instr): (u8, u8) = patterns::default_note_instr(c);
    let (low, high): (i32, i32) = patterns::default_octaves(c);
    patterns::random_in_scale(song, c, k, m, d, low, high, instr, seed);
    let mut t: Vec<char> = text::chars_of("scale ");
    text::put_str(&mut t, label_mode(m));
    text::put_str(&mut t, " on ");
    text::put_str(&mut t, c.label());
    Ok(text::string_of(t.as_slice()))
}

// ---------------------------------------------------------------- progressions

pub open spec fn prog_outcome(
    s: SongView,
    toks: Seq<Seq<char>>,
    kv: Seq<(Seq<char>, Seq<char>)>,
) -> (Result<Seq<char>, GenError>, SongView) {
    match key_mode(kv) {
        Err(e) => refused(e, s),
        Ok((key, mode)) => match chord::progression(toks, key, mode) {
            Err(e) => refused(GenError::Progression(e), s),
            Ok(cs) => match number_or(kv, NumberKey::Steps, 4, usize::MAX as nat) {
                Err(e) => refused(e, s),
                Ok(steps) => (
                    Ok(
                        "chord_prog: "@ + text::dec(cs.len()) + " chords over "@ + text::dec(
                            patterns::phrases_for(
                                cs.len(),
                                patterns::slots_of(patterns::spc_of(steps)),
                            ),
                        ) + " phrase(s) from "@ + text::hex2(s.current_phrase as nat),
                    ),
                    patterns::with_prog(s, cs, steps),
                ),
            },
        },
    }
}

fn run_prog(song: &mut Song, toks: &Vec<&[char]>, kv: &Vec<(&[char], &[char])>) -> (r: Result<
    String,
    GenError,
>)
    requires
        old(song).current_phrase < old(song).phrases@.len(),
        old(song).current_phrase + toks@.len() + 12 <= usize::MAX,
    ensures
        meets(
            r,
            final(song)@,
            prog_outcome(old(song)@, text::views(toks@), text::pair_views(kv@)),
        ),
{
    let (key, mode): (u8, Mode) = match key_mode_from_kv(kv) {
        Ok(km) => km,
        Err(e) => {
            return Err(e);
        },
    };
    let cs: Vec<Chord> = match chord::read_progression(toks, key, mode) {
        Ok(v) => v,
        Err(e) => {
            return Err(GenError::Progression(e));
        },
    };
    let steps: usize = match kv_num(kv, NumberKey::Steps, 4, usize::MAX as u64) {
        Ok(n) => n as usize,
        Err(e) => {
            return Err(e);
        },
    };
    proof {
        lemma_progression_len(text::views(toks@), key, mode);
        assert(chord::chord_views(cs@).len() == cs@.len());
    }
    let n: usize = patterns::chord_prog(song, &cs, steps);
    let mut m: Vec<char> = text::chars_of("chord_prog: ");
    text::put_dec(&mut m, cs.len() as u64);
    text::put_str(&mut m, " chords over ");
    text::put_dec(&mut m, n as u64);
    text::put_str(&mut m, " phrase(s) from ");
    text::put_hex2(&mut m, song.current_phrase as u64);
    Ok(text::string_of(m.as_slice()))
}

proof fn lemma_chords_len(
    acc: Seq<ChordView>,
    toks: Seq<Seq<char>>,
    i: nat,
    key: u8,
    mode: Mode,
)
    requires
        i <= toks.len(),
    ensures
        chord::chords_from(acc, toks, i, key, mode) is Ok ==> chord::chords_from(
            acc,
            toks,
            i,
            key,
            mode,
        )->Ok_0.len() <= acc.len() + toks.len() - i,
    decreases toks.len() - i,
{
    if i < toks.len() {
        let t = chord::peel(toks[i as int], false);
        if t.len() == 0 {
            lemma_chords_len(acc, toks, i + 1, key, mode);
        } else if let Some(c) = chord::chord_symbol(t, key, mode) {
            lemma_chords_len(acc.push(c), toks, i + 1, key, mode);
        }
    }
}

proof fn lemma_pieces_len(s: Seq<char>, c: char)
    ensures
        text::pieces(s, c).len() <= s.len() + 1,
    decreases s.len(),
{
    text::lemma_char_index(s, c);
    let k = text::char_index(s, c) as int;
    if k < s.len() {
        lemma_pieces_len(s.skip(k + 1), c);
    }
}

/// A progression has no more chords than tokens, or than a preset holds.
proof fn lemma_progression_len(toks: Seq<Seq<char>>, key: u8, mode: Mode)
    ensures
        chord::progression(toks, key, mode) is Ok ==> chord::progression(toks, key, mode)->Ok_0.len()
            <= toks.len() + 12,
{
    let ts = chord::progression_tokens(toks);
    lemma_chords_len(Seq::empty(), ts, 0, key, mode);
    if toks.len() == 1 && chord::preset_named(toks[0]) is Some {
        reveal_strlit("I I I I IV IV I I V IV I I");
        reveal_strlit("I vi IV V");
        reveal_strlit("I V vi iii IV I IV V");
        reveal_strlit("i VII VI V");
        reveal_strlit("IV V iii vi");
        reveal_strlit("I V vi IV");
        reveal_strlit("i VI VII i");
        let p = chord::preset_named(toks[0])->0;
        lemma_preset_pieces(p);
    }
}

/// Pieces of a text are no more than its spaces and one.
proof fn lemma_piece_count(s: Seq<char>, c: char, n: nat)
    requires
        spaces(s, c) <= n,
    ensures
        text::pieces(s, c).len() <= n + 1,
    decreases s.len(),
{
    text::lemma_char_index(s, c);
    let k = text::char_index(s, c) as int;
    if k < s.len() {
        lemma_spaces_split(s, c, k);
        lemma_piece_count(s.skip(k + 1), c, (n - 1) as nat);
    }
}

/// How often `c` occurs.
spec fn spaces(s: Seq<char>, c: char) -> nat
    decreases s.len(),
{
    if s.len() == 0 {
        0
    } else {
        (if s[0] == c {
            1nat
        } else {
            0nat
        }) + spaces(s.skip(1), c)
    }
}

proof fn lemma_spaces_split(s: Seq<char>, c: char, k: int)
    requires
        0 <= k < s.len(),
        s[k] == c,
    ensures
        spaces(s, c) >= 1 + spaces(s.skip(k + 1), c),
    decreases s.len(),
{
    if k > 0 {
        assert(s.skip(1)[k - 1] == c);
        lemma_spaces_split(s.skip(1), c, k - 1);
        assert(s.skip(1).skip(k) =~= s.skip(k + 1));
    }
}

proof fn lemma_preset_pieces(p: Seq<char>)
    requires
        p == "I I I I IV IV I I V IV I I"@ || p == "I vi IV V"@ || p == "I V vi iii IV I IV V"@ || p
            == "i VII VI V"@ || p == "IV V iii vi"@ || p == "I V vi IV"@ || p == "i VI VII i"@,
    ensures
        text::pieces(p, ' ').len() <= 12,
{
    reveal_strlit("I I I I IV IV I I V IV I I");
    reveal_strlit("I vi IV V");
    reveal_strlit("I V vi iii IV I IV V");
    reveal_strlit("i VII VI V");
    reveal_strlit("IV V iii vi");
    reveal_strlit("I V vi IV");
    reveal_strlit("i VI VII i");
    if p == "I I I I IV IV I I V IV I I"@ {
        lemma_count_spaces(p);
        lemma_piece_count(p, ' ', 11);
    } else if p == "I V vi iii IV I IV V"@ {
        lemma_count_long(p);
        lemma_piece_count(p, ' ', 11);
    } else {
        lemma_pieces_len(p, ' ');
    }
}

proof fn lemma_spaces_bound(s: Seq<char>, c: char, k: int, n: nat)
    requires
        0 <= k <= s.len(),
        spaces(s.skip(k), c) <= n,
        forall|i: int| 0 <= i < k ==> #[trigger] s[i] != c,
    ensures
        spaces(s, c) <= n,
    decreases k,
{
    if k == 0 {
        assert(s.skip(0) =~= s);
    } else {
        assert(s.skip(1).skip(k - 1) =~= s.skip(k));
        assert forall|i: int| 0 <= i < k - 1 implies #[trigger] s.skip(1)[i] != c by {
            assert(s.skip(1)[i] == s[i + 1]);
        }
        lemma_spaces_bound(s.skip(1), c, k - 1, n);
        assert(s[0] != c);
    }
}

proof fn lemma_count_spaces(p: Seq<char>)
    requires
        p == "I I I I IV IV I I V IV I I"@,
    ensures
        spaces(p, ' ') <= 11,
{
    reveal_strlit("I I I I IV IV I I V IV I I");
    reveal_with_fuel(spaces, 27);
}

proof fn lemma_count_long(p: Seq<char>)
    requires
        p == "I V vi iii IV I IV V"@,
    ensures
        spaces(p, ' ') <= 11,
{
    reveal_strlit("I V vi iii IV I IV V");
    reveal_with_fuel(spaces, 21);
}

// ---------------------------------------------------------------- bass lines

pub open spec fn bass_outcome(
    s: SongView,
    toks: Seq<Seq<char>>,
    kv: Seq<(Seq<char>, Seq<char>)>,
) -> (Result<Seq<char>, GenError>, SongView) {
    match key_mode(kv) {
        Err(e) => refused(e, s),
        Ok((key, mode)) => match chord::progression(toks, key, mode) {
            Err(e) => refused(GenError::Progression(e), s),
            Ok(cs) => match number_or(kv, NumberKey::Steps, 4, usize::MAX as nat) {
                Err(e) => refused(e, s),
                Ok(steps) => {
                    let style = value_or(kv, "style"@, "walking"@);
                    let said = Ok(
                        "bassline "@ + style + ": "@ + text::dec(cs.len()) + " chords over "@
                            + text::dec(
                            patterns::phrases_for(
                                cs.len(),
                                patterns::slots_of(patterns::spc_of(steps)),
                            ),
                        ) + " phrase(s) on TRI"@,
                    );
                    match patterns::bass_style(style) {
                        Some(b) => (said, patterns::with_bass(s, cs, b, steps)),
                        None => if cs.len() == 0 {
                            (said, s)
                        } else {
                            refused(GenError::UnknownBassStyle, s)
                        },
                    }
                },
            },
        },
    }
}

fn run_bass(song: &mut Song, toks: &Vec<&[char]>, kv: &Vec<(&[char], &[char])>) -> (r: Result<
    String,
    GenError,
>)
    requires
        old(song).current_phrase < old(song).phrases@.len(),
        old(song).current_phrase + toks@.len() + 12 <= usize::MAX,
    ensures
        meets(
            r,
            final(song)@,
            bass_outcome(old(song)@, text::views(toks@), text::pair_views(kv@)),
        ),
{
    let (key, mode): (u8, Mode) = match key_mode_from_kv(kv) {
        Ok(km) => km,
        Err(e) => {
            return Err(e);
        },
    };
    let cs: Vec<Chord> = match chord::read_progression(toks, key, mode) {
        Ok(v) => v,
        Err(e) => {
            return Err(GenError::Progression(e));
        },
    };
    let steps: usize = match kv_num(kv, NumberKey::Steps, 4, usize::MAX as u64) {
        Ok(n) => n as usize,
        Err(e) => {
            return Err(e);
        },
    };
    proof {
        lemma_progression_len(text::views(toks@), key, mode);
        assert(chord::chord_views(cs@).len() == cs@.len());
    }
    let style: Vec<char> = kv_text(kv, "style", "walking");
    let name: String = text::string_of(style.as_slice());
    match patterns::bassline(song, &cs, name.as_str(), steps) {
        None => Err(GenError::UnknownBassStyle),
        Some(n) => {
            let mut m: Vec<char> = text::chars_of("bassline ");
            text::put(&mut m, style.as_slice());
            text::put_str(&mut m, ": ");
            text::put_dec(&mut m, cs.len() as u64);
            text::put_str(&mut m, " chords over ");
            text::put_dec(&mut m, n as u64);
            text::put_str(&mut m, " phrase(s) on TRI");
            Ok(text::string_of(m.as_slice()))
        },
    }
}

// ---------------------------------------------------------------- arpeggios

/// The pattern word of an arpeggio: the first word after the chord, else the
/// `pattern` pair, else `up`.
pub open spec fn arp_word(rest: Seq<Seq<char>>, kv: Seq<(Seq<char>, Seq<char>)>) -> Seq<char> {
    if rest.len() > 0 {
        rest[0]
    } else {
        value_or(kv, "pattern"@, "up"@)
    }
}

pub open spec fn arp_len(rest: Seq<Seq<char>>, kv: Seq<(Seq<char>, Seq<char>)>) -> Result<
    nat,
    GenError,
> {
    if rest.len() > 1 {
        match text::parse_uint(rest[1], 10, usize::MAX as nat) {
            Some(n) => Ok(n),
            None => Err(GenError::BadLength),
        }
    } else {
        number_or(kv, NumberKey::Len, 16, usize::MAX as nat)
    }
}

pub open spec fn octaves_or(kv: Seq<(Seq<char>, Seq<char>)>) -> Result<i32, GenError> {
    match value_of(kv, "octaves"@, 0) {
        None => Ok(2i32),
        Some(v) => match text::parse_int(v, 0x8000_0000, i32::MAX as nat) {
            Some(n) => Ok(n as i32),
            None => Err(GenError::BadNumber(NumberKey::Octaves)),
        },
    }
}

pub open spec fn channel_or(kv: Seq<(Seq<char>, Seq<char>)>, default: Seq<char>) -> Result<
    Channel,
    GenError,
> {
    match gen::channel_named(value_or(kv, "ch"@, default)) {
        Some(c) => Ok(c),
        None => Err(GenError::BadChannel),
    }
}

pub open spec fn arp_outcome(
    s: SongView,
    sym: Seq<char>,
    rest: Seq<Seq<char>>,
    kv: Seq<(Seq<char>, Seq<char>)>,
    seed: u64,
) -> (Result<Seq<char>, GenError>, SongView) {
    match key_mode(kv) {
        Err(e) => refused(e, s),
        Ok((key, mode)) => match chord::chord_symbol(sym, key, mode) {
            None => refused(GenError::BadChord, s),
            Some(c) => match arp_len(rest, kv) {
                Err(e) => refused(e, s),
                Ok(len) => match number_or(kv, NumberKey::Rate, 1, usize::MAX as nat) {
                    Err(e) => refused(e, s),
                    Ok(rate) => match octaves_or(kv) {
                        Err(e) => refused(e, s),
                        Ok(octaves) => match channel_or(kv, "pu2"@) {
                            Err(e) => refused(e, s),
                            Ok(ch) => match patterns::arp_pattern(arp_word(rest, kv)) {
                                None => refused(GenError::UnknownArpPattern, s),
                                Some(p) => (
                                    Ok(
                                        "arp "@ + sym + " "@ + arp_word(rest, kv) + " ×"@
                                            + text::dec(len) + " on "@ + gen::channel_label(ch),
                                    ),
                                    patterns::with_current(
                                        s,
                                        patterns::with_channel(
                                            patterns::current(s),
                                            gen::channel_index(ch) as int,
                                            patterns::arp_column(
                                                c,
                                                p,
                                                len,
                                                rate,
                                                octaves,
                                                patterns::default_hit(ch).1,
                                                seed,
                                            ),
                                        ),
                                    ),
                                ),
                            },
                        },
                    },
                },
            },
        },
    }
}

fn read_octaves(kv: &Vec<(&[char], &[char])>) -> (r: Result<i32, GenError>)
    ensures
        r == octaves_or(text::pair_views(kv@)),
{
    match kv_get(kv, "octaves") {
        None => Ok(2),
        Some(v) => match text::read_int(v, 0x8000_0000, i32::MAX as u32) {
            Some(n) => Ok(n as i32),
            None => Err(GenError::BadNumber(NumberKey::Octaves)),
        },
    }
}

fn channel_from_kv(kv: &Vec<(&[char], &[char])>, default: &str) -> (r: Result<Channel, GenError>)
    ensures
        r == channel_or(text::pair_views(kv@), default@),
{
    let name: Vec<char> = kv_text(kv, "ch", default);
    match gen::read_channel(name.as_slice()) {
        Some(c) => Ok(c),
        None => Err(GenError::BadChannel),
    }
}

fn read_arp_len(rest: &Vec<&[char]>, kv: &Vec<(&[char], &[char])>) -> (r: Result<usize, GenError>)
    ensures
        match r {
            Ok(n) => arp_len(text::views(rest@), text::pair_views(kv@)) == Ok::<nat, GenError>(
                n as nat,
            ),
            Err(e) => arp_len(text::views(rest@), text::pair_views(kv@)) == Err::<nat, GenError>(e),
        },
{
    if rest.len() > 1 {
        match text::read_uint(rest[1], 10, usize::MAX as u64) {
            Some(n) => Ok(n as usize),
            None => Err(GenError::BadLength),
        }
    } else {
        match kv_num(kv, NumberKey::Len, 16, usize::MAX as u64) {
            Ok(n) => Ok(n as usize),
            Err(e) => Err(e),
        }
    }
}

fn run_arp(
    song: &mut Song,
    sym: &[char],
    rest: &Vec<&[char]>,
    kv: &Vec<(&[char], &[char])>,
    seed: u64,
) -> (r: Result<String, GenError>)
    requires
        old(song).current_phrase < old(song).phrases@.len(),
    ensures
        meets(
            r,
            final(song)@,
            arp_outcome(old(song)@, sym@, text::views(rest@), text::pair_views(kv@), seed),
        ),
{
    let (key, mode): (u8, Mode) = match key_mode_from_kv(kv) {
        Ok(km) => km,
        Err(e) => {
            return Err(e);
        },
    };
    let c: Chord = match chord::read_chord_symbol(sym, key, mode) {
        Some(c) => c,
        None => {
            return Err(GenError::BadChord);
        },
    };
    let word: Vec<char> = if rest.len() > 0 {
        text::copy_of(rest[0])
    } else {
        kv_text(kv, "pattern", "up")
    };
    assert(word@ == arp_word(text::views(rest@), text::pair_views(kv@)));
    let len: usize = match read_arp_len(rest, kv) {
        Ok(n) => n,
        Err(e) => {
            return Err(e);
        },
    };
    let rate: usize = match kv_num(kv, NumberKey::Rate, 1, usize::MAX as u64) {
        Ok(n) => n as usize,
        Err(e) => {
            return Err(e);
        },
    };
    let octaves: i32 = match read_octaves(kv) {
        Ok(n) => n,
        Err(e) => {
            return Err(e);
        },
    };
    let ch: Channel = match channel_from_kv(kv, "pu2") {
        Ok(c) => c,
        Err(e) => {
            return Err(e);
        },
    };
    let name: String = text::string_of(word.as_slice());
    if !patterns::arp(song, ch, &c, name.as_str(), len, rate, octaves, seed) {
        return Err(GenError::UnknownArpPattern);
    }
    let mut m: Vec<char> = text::chars_of("arp ");
    text::put(&mut m, sym);
    text::put_str(&mut m, " ");
    text::put(&mut m, word.as_slice());
    text::put_str(&mut m, " ×");
    text::put_dec(&mut m, len as u64);
    text::put_str(&mut m, " on ");
    text::put_str(&mut m, ch.label());
    Ok(text::string_of(m.as_slice()))
}

// ---------------------------------------------------------------- drums

pub open spec fn wants_dpcm(kv: Seq<(Seq<char>, Seq<char>)>) -> bool {
    match value_of(kv, "dpcm"@, 0) {
        Some(v) => !(v == "off"@ || v == "no"@ || v == "0"@),
        None => true,
    }
}

pub open spec fn fill_words(fills: nat) -> Seq<char> {
    if fills > 0 {
        " +"@ + text::dec(fills) + " fill hits"@
    } else {
        Seq::empty()
    }
}

pub open spec fn drums_outcome(
    s: SongView,
    name: Seq<char>,
    kv: Seq<(Seq<char>, Seq<char>)>,
) -> (Result<Seq<char>, GenError>, SongView) {
    match patterns::drums_named(name) {
        None => refused(GenError::UnknownDrums, s),
        Some(p) => match number_or(kv, NumberKey::Fills, 0, usize::MAX as nat) {
            Err(e) => refused(e, s),
            Ok(fills) => (
                Ok(
                    "drums "@ + p.name + fill_words(fills) + (if wants_dpcm(kv) {
                        " (kick/snare on DPCM, hats on NOI)"@
                    } else {
                        " (all on NOI)"@
                    }),
                ),
                patterns::with_current(
                    s,
                    patterns::drum_grid(patterns::current(s), p, fills, wants_dpcm(kv)),
                ),
            ),
        },
    }
}

fn run_drums(song: &mut Song, name: &[char], kv: &Vec<(&[char], &[char])>) -> (r: Result<
    String,
    GenError,
>)
    requires
        old(song).current_phrase < old(song).phrases@.len(),
    ensures
        meets(r, final(song)@, drums_outcome(old(song)@, name@, text::pair_views(kv@))),
{
    let p: DrumPreset = match patterns::read_drum_preset(name) {
        Some(p) => p,
        None => {
            return Err(GenError::UnknownDrums);
        },
    };
    let fills: usize = match kv_num(kv, NumberKey::Fills, 0, usize::MAX as u64) {
        Ok(n) => n as usize,
        Err(e) => {
            return Err(e);
        },
    };
    let dpcm: bool = match kv_get(kv, "dpcm") {
        Some(v) => !(text::is_lit(v, "off") || text::is_lit(v, "no") || text::is_lit(v, "0")),
        None => true,
    };
    assert(dpcm == wants_dpcm(text::pair_views(kv@)));
    patterns::drums(song, &p, fills, dpcm);
    let mut m: Vec<char> = text::chars_of("drums ");
    text::put_str(&mut m, p.name);
    let ghost said = m@;
    if fills > 0 {
        text::put_str(&mut m, " +");
        text::put_dec(&mut m, fills as u64);
        text::put_str(&mut m, " fill hits");
    }
    assert(m@ =~= said + fill_words(fills as nat));
    if dpcm {
        text::put_str(&mut m, " (kick/snare on DPCM, hats on NOI)");
    } else {
        text::put_str(&mut m, " (all on NOI)");
    }
    Ok(text::string_of(m.as_slice()))
}

/// Names in order, `, ` between them.
pub open spec fn listed(ps: Seq<DrumView>, k: nat) -> Seq<char>
    decreases k,
{
    if k == 0 {
        Seq::empty()
    } else if k == 1 {
        ps[0].name
    } else {
        listed(ps, (k - 1) as nat) + ", "@ + ps[k - 1].name
    }
}

fn list_drums() -> (r: Vec<char>)
    ensures
        r@ == listed(patterns::drum_table(), patterns::drum_table().len()),
{
    let ps: Vec<DrumPreset> = patterns::drum_presets();
    let ghost table = patterns::drum_table();
    assert(table.len() == ps@.len()) by {
        assert(patterns::drum_views(ps@).len() == ps@.len());
    }
    let mut names: Vec<char> = Vec::new();
    assert(names@ =~= listed(table, 0));
    for i in 0..ps.len()
        invariant
            table == patterns::drum_views(ps@),
            names@ == listed(table, i as nat),
    {
        assert(table[i as int] == ps@[i as int]@);
        if i > 0 {
            text::put_str(&mut names, ", ");
        }
        text::put_str(&mut names, ps[i].name);
        assert(names@ =~= listed(table, (i + 1) as nat));
    }
    names
}

/// The names of all drum presets, as `:gen drums` lists them.
pub fn drum_names() -> (r: String)
    ensures
        r@ == "drum presets: "@ + listed(
            patterns::drum_table(),
            patterns::drum_table().len(),
        ),
{
    let names: Vec<char> = list_drums();
    let mut m: Vec<char> = text::chars_of("drum presets: ");
    text::put(&mut m, names.as_slice());
    text::string_of(m.as_slice())
}

// ---------------------------------------------------------------- automata

pub open spec fn first_of(s: Seq<char>, n: nat) -> Seq<char> {
    if s.len() <= n {
        s
    } else {
        s.take(n as int)
    }
}

pub open spec fn map_or(kv: Seq<(Seq<char>, Seq<char>)>) -> Result<
    Seq<(char, Option<u8>)>,
    GenError,
> {
    match value_of(kv, "map"@, 0) {
        None => Ok(Seq::empty()),
        Some(v) => match automata::map_of(v) {
            Ok(m) => Ok(m),
            Err(e) => Err(GenError::NoteMap(e)),
        },
    }
}

pub open spec fn iterations_or(kv: Seq<(Seq<char>, Seq<char>)>) -> Result<nat, GenError> {
    match number_or(kv, NumberKey::Iterations, 4, usize::MAX as nat) {
        Ok(n) => Ok(
            if n > 12 {
                12
            } else {
                n
            },
        ),
        Err(e) => Err(e),
    }
}

pub open spec fn lsystem_outcome(s: SongView, kv: Seq<(Seq<char>, Seq<char>)>) -> (
    Result<Seq<char>, GenError>,
    SongView,
) {
    match value_of(kv, "axiom"@, 0) {
        None => refused(GenError::NeedStart, s),
        Some(start) => match value_of(kv, "rules"@, 0) {
            None => refused(GenError::NeedRules, s),
            Some(rt) => match automata::rules_of(rt) {
                Err(e) => refused(GenError::Rules(e), s),
                Ok(rules) => match iterations_or(kv) {
                    Err(e) => refused(e, s),
                    Ok(n) => match map_or(kv) {
                        Err(e) => refused(e, s),
                        Ok(map) => match key_mode(kv) {
                            Err(e) => refused(e, s),
                            Ok((key, mode)) => match channel_or(kv, "pu1"@) {
                                Err(e) => refused(e, s),
                                Ok(ch) => {
                                    let t = automata::expanded(start, rules, n);
                                    (
                                        Ok(
                                            "lsystem: "@ + text::dec(text::byte_len(t))
                                                + " symbols after "@ + text::dec(n)
                                                + " iterations, first 16 → "@ + first_of(t, 16)
                                                + " on "@ + gen::channel_label(ch),
                                        ),
                                        patterns::with_current(
                                            s,
                                            patterns::with_channel(
                                                patterns::current(s),
                                                gen::channel_index(ch) as int,
                                                automata::lsystem_column(t, map, ch, key, mode),
                                            ),
                                        ),
                                    )
                                },
                            },
                        },
                    },
                },
            },
        },
    }
}

fn read_iterations(kv: &Vec<(&[char], &[char])>) -> (r: Result<usize, GenError>)
    ensures
        match r {
            Ok(n) => iterations_or(text::pair_views(kv@)) == Ok::<nat, GenError>(n as nat),
            Err(e) => iterations_or(text::pair_views(kv@)) == Err::<nat, GenError>(e),
        },
{
    match kv_num(kv, NumberKey::Iterations, 4, usize::MAX as u64) {
        Ok(n) => Ok(
            if n > 12 {
                12
            } else {
                n as usize
            },
        ),
        Err(e) => Err(e),
    }
}

fn read_map(kv: &Vec<(&[char], &[char])>) -> (r: Result<Vec<(char, Option<u8>)>, GenError>)
    ensures
        match r {
            Ok(v) => map_or(text::pair_views(kv@)) == Ok::<Seq<(char, Option<u8>)>, GenError>(v@),
            Err(e) => map_or(text::pair_views(kv@)) == Err::<Seq<(char, Option<u8>)>, GenError>(e),
        },
{
    match kv_get(kv, "map") {
        None => Ok(Vec::new()),
        Some(v) => match automata::read_note_map(v) {
            Ok(m) => Ok(m),
            Err(e) => Err(GenError::NoteMap(e)),
        },
    }
}

fn run_lsystem(song: &mut Song, kv: &Vec<(&[char], &[char])>) -> (r: Result<String, GenError>)
    requires
        old(song).current_phrase < old(song).phrases@.len(),
    ensures
        meets(r, final(song)@, lsystem_outcome(old(song)@, text::pair_views(kv@))),
{
    let start: &[char] = match kv_get(kv, "axiom") {
        Some(v) => v,
        None => {
            return Err(GenError::NeedStart);
        },
    };
    let rules: Vec<(char, String)> = match kv_get(kv, "rules") {
        Some(v) => match automata::read_rules(v) {
            Ok(r) => r,
            Err(e) => {
                return Err(GenError::Rules(e));
            },
        },
        None => {
            return Err(GenError::NeedRules);
        },
    };
    let n: usize = match read_iterations(kv) {
        Ok(n) => n,
        Err(e) => {
            return Err(e);
        },
    };
    let map: Vec<(char, Option<u8>)> = match read_map(kv) {
        Ok(m) => m,
        Err(e) => {
            return Err(e);
        },
    };
    let (key, mode): (u8, Mode) = match key_mode_from_kv(kv) {
        Ok(km) => km,
        Err(e) => {
            return Err(e);
        },
    };
    let ch: Channel = match channel_from_kv(kv, "pu1") {
        Ok(c) => c,
        Err(e) => {
            return Err(e);
        },
    };
    let seed: String = text::string_of(start);
    let t: String = automata::lsystem(
        song,
        ch,
        seed.as_str(),
        rules.as_slice(),
        n,
        map.as_slice(),
        key,
        mode,
    );
    let symbols: Vec<char> = text::chars_of(t.as_str());
    let shown: &[char] = if symbols.len() <= 16 {
        symbols.as_slice()
    } else {
        text::head(symbols.as_slice(), 16)
    };
    let size: Vec<char> = text::numeral_of(text::count_bytes(symbols.as_slice()), 10);
    let mut m: Vec<char> = text::chars_of("lsystem: ");
    text::put(&mut m, size.as_slice());
    text::put_str(&mut m, " symbols after ");
    text::put_dec(&mut m, n as u64);
    text::put_str(&mut m, " iterations, first 16 → ");
    text::put(&mut m, shown);
    text::put_str(&mut m, " on ");
    text::put_str(&mut m, ch.label());
    Ok(text::string_of(m.as_slice()))
}

pub open spec fn cellular_outcome(s: SongView, kv: Seq<(Seq<char>, Seq<char>)>, seed: u64) -> (
    Result<Seq<char>, GenError>,
    SongView,
) {
    match number_or(kv, NumberKey::Rule, 30, u8::MAX as nat) {
        Err(e) => refused(e, s),
        Ok(rule) => match number_or(kv, NumberKey::Width, 16, usize::MAX as nat) {
            Err(e) => refused(e, s),
            Ok(width) => match key_mode(kv) {
                Err(e) => refused(e, s),
                Ok((key, mode)) => match channel_or(kv, "pu1"@) {
                    Err(e) => refused(e, s),
                    Ok(ch) => {
                        let first = automata::first_row(
                            value_or(kv, "seed"@, "center"@),
                            automata::ca_width(width),
                            gen::rng_seed(seed),
                        ).0;
                        let col = automata::ca_column(rule as u8, first, ch, key, mode);
                        (
                            Ok(
                                "cellular rule "@ + text::dec(rule) + ": "@ + text::dec(
                                    automata::struck(col, STEPS_PER_PHRASE as nat),
                                ) + " hits on "@ + gen::channel_label(ch),
                            ),
                            patterns::with_current(
                                s,
                                patterns::with_channel(
                                    patterns::current(s),
                                    gen::channel_index(ch) as int,
                                    col,
                                ),
                            ),
                        )
                    },
                },
            },
        },
    }
}

fn run_cellular(song: &mut Song, kv: &Vec<(&[char], &[char])>, seed: u64) -> (r: Result<
    String,
    GenError,
>)
    requires
        old(song).current_phrase < old(song).phrases@.len(),
    ensures
        meets(r, final(song)@, cellular_outcome(old(song)@, text::pair_views(kv@), seed)),
{
    let rule: u8 = match kv_num(kv, NumberKey::Rule, 30, u8::MAX as u64) {
        Ok(n) => n as u8,
        Err(e) => {
            return Err(e);
        },
    };
    let width: usize = match kv_num(kv, NumberKey::Width, 16, usize::MAX as u64) {
        Ok(n) => n as usize,
        Err(e) => {
            return Err(e);
        },
    };
    let (key, mode): (u8, Mode) = match key_mode_from_kv(kv) {
        Ok(km) => km,
        Err(e) => {
            return Err(e);
        },
    };
    let ch: Channel = match channel_from_kv(kv, "pu1") {
        Ok(c) => c,
        Err(e) => {
            return Err(e);
        },
    };
    let kind: Vec<char> = kv_text(kv, "seed", "center");
    let name: String = text::string_of(kind.as_slice());
    let hits: usize = automata::cellular(song, ch, rule, width, name.as_str(), key, mode, seed);
    let mut m: Vec<char> = text::chars_of("cellular rule ");
    text::put_dec(&mut m, rule as u64);
    text::put_str(&mut m, ": ");
    text::put_dec(&mut m, hits as u64);
    text::put_str(&mut m, " hits on ");
    text::put_str(&mut m, ch.label());
    Ok(text::string_of(m.as_slice()))
}

// ---------------------------------------------------------------- the command

/// What a `:gen` command with these words and pairs does.
pub open spec fn routed(
    s: SongView,
    w: Seq<Seq<char>>,
    kv: Seq<(Seq<char>, Seq<char>)>,
    seed: u64,
) -> (Result<Seq<char>, GenError>, SongView) {
    if w.len() == 0 {
        refused(GenError::Usage, s)
    } else if (w[0] == "four"@ || w[0] == "four_on_floor"@) && w.len() == 1 {
        (
            Ok("generated four-on-floor drums on NOI"@),
            patterns::with_current(
                s,
                patterns::with_channel(patterns::current(s), 3, patterns::four_column()),
            ),
        )
    } else if w[0] == "euclid"@ && w.len() == 4 {
        euclid_outcome(s, w[1], w[2], w[3], value_or(kv, "offset"@, "0"@))
    } else if w[0] == "euclid"@ && w.len() == 5 {
        euclid_outcome(s, w[1], w[2], w[3], w[4])
    } else if w[0] == "scale"@ && 3 <= w.len() <= 5 {
        scale_outcome(
            s,
            w[1],
            w[2],
            if w.len() > 3 {
                w[3]
            } else {
                value_or(kv, "mode"@, "minor"@)
            },
            if w.len() > 4 {
                w[4]
            } else {
                value_or(kv, "density"@, "0.5"@)
            },
            seed,
        )
    } else if w[0] == "chord_prog"@ || w[0] == "chords"@ || w[0] == "prog"@ {
        prog_outcome(s, w.skip(1), kv)
    } else if w[0] == "bassline"@ || w[0] == "bass"@ {
        bass_outcome(s, w.skip(1), kv)
    } else if w[0] == "arp"@ && w.len() >= 2 {
        arp_outcome(s, w[1], w.skip(2), kv, seed)
    } else if w[0] == "drums"@ && w.len() == 2 {
        drums_outcome(s, w[1], kv)
    } else if w[0] == "drums"@ && w.len() == 1 {
        (
            Ok(
                "drum presets: "@ + listed(
                    patterns::drum_table(),
                    patterns::drum_table().len(),
                ),
            ),
            s,
        )
    } else if (w[0] == "lsystem"@ || w[0] == "lsys"@) && w.len() == 1 {
        lsystem_outcome(s, kv)
    } else if (w[0] == "cellular"@ || w[0] == "ca"@) && w.len() == 1 {
        cellular_outcome(s, kv, seed)
    } else {
        refused(GenError::Usage, s)
    }
}

/// What a `:gen` command line does.
pub open spec fn dispatched(s: SongView, args: Seq<Seq<char>>, seed: u64) -> (
    Result<Seq<char>, GenError>,
    SongView,
) {
    routed(s, words_of(args, args.len()), pairs_of(args, args.len()), seed)
}

/// A command never loses a phrase and never leaves the current one.
pub proof fn law_commands_keep_the_place(s: SongView, args: Seq<Seq<char>>, seed: u64)
    requires
        s.current_phrase < s.phrases.len(),
    ensures
        dispatched(s, args, seed).1.phrases.len() >= s.phrases.len(),
        dispatched(s, args, seed).1.current_phrase == s.current_phrase,
{
}

/// A command that is refused leaves the song as it was.
pub proof fn law_refused_commands_change_nothing(s: SongView, args: Seq<Seq<char>>, seed: u64)
    ensures
        dispatched(s, args, seed).0 is Err ==> dispatched(s, args, seed).1 == s,
{
}

/// A word that is left when its quotes are dropped, and is no pair.
pub open spec fn is_word(w: Seq<char>) -> bool {
    unquote(w).len() > 0 && text::cut_word(unquote(w)) is None
}

proof fn lemma_back_is_front(w: Seq<char>)
    ensures
        unquote_back(w).len() <= w.len(),
        unquote_back(w) == w.take(unquote_back(w).len() as int),
        unquote_back(w).len() > 0 ==> unquote_back(w).last() != '"',
    decreases w.len(),
{
    if w.len() > 0 && w.last() == '"' {
        lemma_back_is_front(w.drop_last());
        assert(unquote_back(w) =~= w.take(unquote_back(w).len() as int));
    } else {
        assert(w.take(w.len() as int) =~= w);
    }
}

/// Quotes dropped in front leave a text that ends as before.
proof fn lemma_front(w: Seq<char>)
    ensures
        unquote_front(w).len() <= w.len(),
        unquote_front(w) == w.skip(w.len() - unquote_front(w).len()),
    decreases w.len(),
{
    if w.len() > 0 && w[0] == '"' {
        lemma_front(w.skip(1));
        assert(unquote_front(w) =~= w.skip(w.len() - unquote_front(w).len()));
    } else {
        assert(w.skip(0) =~= w);
    }
}

/// Where nothing is left without the quotes behind, nothing is left without
/// those in front either.
proof fn lemma_only_quotes(w: Seq<char>)
    requires
        unquote_back(w).len() == 0,
    ensures
        unquote(w).len() == 0,
    decreases w.len(),
{
    lemma_all_quotes(w);
    lemma_front(w);
    let f = unquote_front(w);
    if f.len() > 0 {
        assert(f[0] == w[w.len() - f.len()]);
        lemma_front_stops(w);
    }
}

proof fn lemma_all_quotes(w: Seq<char>)
    requires
        unquote_back(w).len() == 0,
    ensures
        forall|i: int| 0 <= i < w.len() ==> #[trigger] w[i] == '"',
    decreases w.len(),
{
    if w.len() > 0 {
        lemma_all_quotes(w.drop_last());
        assert forall|i: int| 0 <= i < w.len() implies #[trigger] w[i] == '"' by {
            if i < w.len() - 1 {
                assert(w.drop_last()[i] == w[i]);
            }
        }
    }
}

proof fn lemma_front_stops(w: Seq<char>)
    ensures
        unquote_front(w).len() > 0 ==> unquote_front(w)[0] != '"',
    decreases w.len(),
{
    if w.len() > 0 && w[0] == '"' {
        lemma_front_stops(w.skip(1));
    }
}

/// Quotes behind a text are dropped whatever stands before it.
proof fn lemma_back_after(a: Seq<char>, w: Seq<char>)
    requires
        unquote_back(w).len() > 0,
    ensures
        unquote_back(a + w) == a + unquote_back(w),
    decreases w.len(),
{
    assert((a + w).last() == w.last());
    if w.last() == '"' {
        lemma_back_after(a, w.drop_last());
        assert((a + w).drop_last() =~= a + w.drop_last());
    }
}

proof fn lemma_not_a_number(w: Seq<char>)
    requires
        w.len() > 0,
        w[0] == '"',
    ensures
        text::digits_value(w, 10) is None,
    decreases w.len(),
{
    if w.len() > 1 {
        lemma_not_a_number(w.drop_last());
    }
}

/// What an offset given by its name is split into.
proof fn lemma_offset_pair(off: Seq<char>)
    requires
        is_word(off),
    ensures
        unquote("offset="@ + off) == "offset="@ + unquote_back(off),
        text::cut_word(unquote("offset="@ + off)) == Some(("offset"@, unquote_back(off))),
        off[0] != '"' ==> unquote_back(off) == unquote(off),
        off[0] == '"' ==> text::parse_uint(unquote_back(off), 10, usize::MAX as nat) is None,
{
    reveal_strlit("offset=");
    reveal_strlit("offset");
    let w = "offset="@ + off;
    assert(w[0] == 'o');
    if unquote_back(off).len() == 0 {
        lemma_only_quotes(off);
    }
    lemma_back_after("offset="@, off);
    lemma_back_is_front(off);
    let v = unquote_back(off);
    assert(v[0] == off[0]);
    let u = "offset="@ + v;
    text::lemma_char_index_is(u, '=', 6);
    assert(u.take(6) =~= "offset"@);
    assert(u.skip(7) =~= v);
    if off[0] == '"' {
        lemma_not_a_number(v);
    }
}

/// An offset may be given in its place or by its name. Quotes around words do
/// not matter, but for a number that begins with one: by name it is no number.
pub proof fn law_euclid_offset_in_place_or_by_name(
    s: SongView,
    ch: Seq<char>,
    k: Seq<char>,
    n: Seq<char>,
    off: Seq<char>,
    seed: u64,
)
    requires
        is_word(ch),
        is_word(k),
        is_word(n),
        is_word(off),
        off[0] == '"' ==> text::parse_uint(unquote(off), 10, usize::MAX as nat) is None,
    ensures
        dispatched(s, seq!["euclid"@, ch, k, n, off], seed) == dispatched(
            s,
            seq!["euclid"@, ch, k, n, "offset="@ + off],
            seed,
        ),
{
    reveal_strlit("euclid");
    reveal_strlit("four");
    reveal_strlit("four_on_floor");
    let e = "euclid"@;
    assert(e[0] == 'e' && "four"@[0] == 'f' && "four_on_floor"@[0] == 'f');
    assert(unquote(e) == e);
    text::lemma_char_index_is(e, '=', 6);
    let a = seq![e, ch, k, n, off];
    let b = seq![e, ch, k, n, "offset="@ + off];
    lemma_offset_pair(off);
    reveal_with_fuel(words_of, 6);
    reveal_with_fuel(pairs_of, 6);
    assert(words_of(a, 5) =~= seq![e, unquote(ch), unquote(k), unquote(n), unquote(off)]);
    assert(words_of(b, 5) =~= seq![e, unquote(ch), unquote(k), unquote(n)]);
    let ps = pairs_of(b, 5);
    let v = unquote_back(off);
    assert(ps =~= seq![("offset"@, v)]);
    assert(value_of(ps, "offset"@, 0) == Some(v));
}

/// The words from `k` on.
fn words_from<'a>(w: &Vec<&'a [char]>, k: usize) -> (r: Vec<&'a [char]>)
    requires
        k <= w@.len(),
    ensures
        text::views(r@) == text::views(w@).skip(k as int),
        r@.len() == w@.len() - k,
{
    let mut out: Vec<&'a [char]> = Vec::new();
    for i in k..w.len()
        invariant
            k <= i <= w@.len(),
            out@ == w@.subrange(k as int, i as int),
    {
        out.push(w[i]);
        assert(out@ =~= w@.subrange(k as int, i + 1));
    }
    assert(text::views(out@) =~= text::views(w@).skip(k as int));
    out
}

fn route(
    song: &mut Song,
    w: &Vec<&[char]>,
    kv: &Vec<(&[char], &[char])>,
    seed: u64,
) -> (r: Result<String, GenError>)
    requires
        old(song).current_phrase < old(song).phrases@.len(),
        old(song).current_phrase + w@.len() + 12 <= usize::MAX,
    ensures
        meets(
            r,
            final(song)@,
            routed(old(song)@, text::views(w@), text::pair_views(kv@), seed),
        ),
{
    if w.len() == 0 {
        return Err(GenError::Usage);
    }
    let ghost all = text::views(w@);
    let head: &[char] = w[0];
    assert(all[0] == head@);
    assert(forall|i: int| 0 <= i < w@.len() ==> all[i] == #[trigger] w@[i]@);
    if (text::is_lit(head, "four") || text::is_lit(head, "four_on_floor")) && w.len() == 1 {
        patterns::four_on_floor(song);
        return Ok(text::string_of(
            text::chars_of("generated four-on-floor drums on NOI").as_slice(),
        ));
    }
    if text::is_lit(head, "euclid") && w.len() == 4 {
        let off: Vec<char> = kv_text(kv, "offset", "0");
        return run_euclid(song, w[1], w[2], w[3], off.as_slice());
    }
    if text::is_lit(head, "euclid") && w.len() == 5 {
        return run_euclid(song, w[1], w[2], w[3], w[4]);
    }
    if text::is_lit(head, "scale") && 3 <= w.len() && w.len() <= 5 {
        let mode: Vec<char> = if w.len() > 3 {
            text::copy_of(w[3])
        } else {
            kv_text(kv, "mode", "minor")
        };
        let density: Vec<char> = if w.len() > 4 {
            text::copy_of(w[4])
        } else {
            kv_text(kv, "density", "0.5")
        };
        return run_scale(song, w[1], w[2], mode.as_slice(), density.as_slice(), seed);
    }
    if text::is_lit(head, "chord_prog") || text::is_lit(head, "chords") || text::is_lit(
        head,
        "prog",
    ) {
        return run_prog(song, &words_from(w, 1), kv);
    }
    if text::is_lit(head, "bassline") || text::is_lit(head, "bass") {
        return run_bass(song, &words_from(w, 1), kv);
    }
    if text::is_lit(head, "arp") && w.len() >= 2 {
        return run_arp(song, w[1], &words_from(w, 2), kv, seed);
    }
    if text::is_lit(head, "drums") && w.len() == 2 {
        return run_drums(song, w[1], kv);
    }
    if text::is_lit(head, "drums") && w.len() == 1 {
        return Ok(drum_names());
    }
    if (text::is_lit(head, "lsystem") || text::is_lit(head, "lsys")) && w.len() == 1 {
        return run_lsystem(song, kv);
    }
    if (text::is_lit(head, "cellular") || text::is_lit(head, "ca")) && w.len() == 1 {
        return run_cellular(song, kv, seed);
    }
    Err(GenError::Usage)
}

/// Runs a `:gen` command on the current phrase. Optional parameters come as
/// words in their place or as `key=value` pairs. Returns a line that says
/// what was done.
pub fn dispatch(song: &mut Song, args: &[&str], seed: u64) -> (r: Result<String, GenError>)
    requires
        old(song).current_phrase < old(song).phrases@.len(),
        old(song).current_phrase + args@.len() + 12 <= usize::MAX,
    ensures
        meets(r, final(song)@, dispatched(old(song)@, chord::str_views(args@), seed)),
{
    let held: Vec<Vec<char>> = chord::chars_of_all(args);
    let slices: Vec<&[char]> = chord::slices_of(&held);
    assert(text::views(slices@) =~= chord::str_views(args@));
    let (w, kv): (Vec<&[char]>, Vec<(&[char], &[char])>) = split_args(&slices);
    route(song, &w, &kv, seed)
}

// ---------------------------------------------------------------- in words

/// The word at a place, or nothing.
pub open spec fn word_or_none(w: Seq<Seq<char>>, i: int) -> Seq<char> {
    if 0 <= i < w.len() {
        w[i]
    } else {
        Seq::empty()
    }
}

/// Whether a command takes its channel, key and mode as words.
pub open spec fn by_place(w: Seq<Seq<char>>) -> bool {
    w.len() > 0 && (w[0] == "euclid"@ || w[0] == "scale"@)
}

/// A word at a place where the command has it there, else a pair's value.
pub open spec fn word_or_value(
    w: Seq<Seq<char>>,
    i: int,
    kv: Seq<(Seq<char>, Seq<char>)>,
    key: Seq<char>,
) -> Seq<char> {
    if by_place(w) && i < w.len() {
        w[i]
    } else {
        value_or(kv, key, ""@)
    }
}

/// An entry of a list such as `A=ABA,B=.A.`.
pub open spec fn list_entry(list: Seq<char>, i: int) -> Seq<char> {
    text::trim(word_or_none(text::pieces(list, ','), i))
}

/// What stands right of an entry's equals sign.
pub open spec fn right_side(part: Seq<char>) -> Seq<char> {
    match text::cut_word(part) {
        Some((_, v)) => v,
        None => Seq::empty(),
    }
}

/// The word that a refused command was refused for.
pub open spec fn blamed(w: Seq<Seq<char>>, kv: Seq<(Seq<char>, Seq<char>)>, e: GenError) -> Seq<
    char,
> {
    match e {
        GenError::BadChannel => word_or_value(w, 1, kv, "ch"@),
        GenError::BadKey => word_or_value(w, 2, kv, "key"@),
        GenError::BadMode => word_or_value(w, 3, kv, "mode"@),
        GenError::BadNumber(k) => value_or(kv, number_name(k), ""@),
        GenError::BadChord | GenError::UnknownDrums => word_or_none(w, 1),
        GenError::BadLength => word_or_none(w, 3),
        GenError::Progression(ProgressionFault::BadChord(i)) => chord::token_at(
            chord::progression_tokens(rest_of(w, 1)),
            i as int,
        ),
        GenError::UnknownBassStyle => value_or(kv, "style"@, "walking"@),
        GenError::UnknownArpPattern => arp_word(rest_of(w, 2), kv),
        GenError::Rules(ListFault::NoEquals(i)) => list_entry(value_or(kv, "rules"@, ""@), i as int),
        GenError::Rules(ListFault::LeftSide(i)) => list_entry(value_or(kv, "rules"@, ""@), i as int),
        GenError::NoteMap(ListFault::NoEquals(i)) => list_entry(value_or(kv, "map"@, ""@), i as int),
        GenError::NoteMap(ListFault::LeftSide(i)) => list_entry(value_or(kv, "map"@, ""@), i as int),
        GenError::NoteMap(ListFault::BadNote(i)) => right_side(
            list_entry(value_or(kv, "map"@, ""@), i as int),
        ),
        _ => Seq::empty(),
    }
}

pub open spec fn rest_of(w: Seq<Seq<char>>, k: int) -> Seq<Seq<char>> {
    if k <= w.len() {
        w.skip(k)
    } else {
        Seq::empty()
    }
}

/// What comes before the blamed word, and after it. A message that names no
/// word is all in front.
pub open spec fn told_around(e: GenError) -> (Seq<char>, bool, Seq<char>) {
    match e {
        GenError::Usage => ("usage: :gen four | euclid <ch> <k> <n> [off] | scale <ch> <key> [mode] [density] | chord_prog <preset|chords…> [key=Am] [steps=4] | bassline <preset|chords…> [style=walking] [key=Am] [steps=4] | arp <chord> [up|down|updown|random] [len] [rate=1] [ch=pu2] [octaves=2] | drums <preset> [fills=N] [dpcm=off] | lsystem axiom=A rules=A=ABA,B=.A. [iterations=4] [map=A=C4,B=G3,.=-] [ch=pu1] | cellular [rule=30] [ch=pu1] [key=Am] [seed=center|random]"@, false, ""@),
        GenError::BadChannel => ("bad channel "@, true, ""@),
        GenError::BadHits => ("bad k"@, false, ""@),
        GenError::BadSteps => ("bad n"@, false, ""@),
        GenError::BadOffset => ("bad offset"@, false, ""@),
        GenError::BadKey => ("bad key "@, true, ""@),
        GenError::BadMode => ("bad mode "@, true, ""@),
        GenError::BadDensity => ("bad density"@, false, ""@),
        GenError::BadNumber(k) => (number_name(k) + "="@, true, " is not a number"@),
        GenError::BadChord => ("bad chord "@, true, ""@),
        GenError::BadLength => ("bad length "@, true, ""@),
        GenError::Progression(ProgressionFault::BadChord(_)) => ("bad chord "@, true, ""@),
        GenError::Progression(ProgressionFault::Empty) => ("no chords given"@, false, ""@),
        GenError::UnknownBassStyle => (
            "bassline: unknown style "@,
            true,
            " (walking | arpeggio | root_fifth | octaves | roots)"@,
        ),
        GenError::UnknownArpPattern => (
            "arp: unknown pattern "@,
            true,
            " (up | down | updown | random)"@,
        ),
        GenError::UnknownDrums => (
            "unknown drum preset "@,
            true,
            " (have: "@ + listed(patterns::drum_table(), patterns::drum_table().len()) + ")"@,
        ),
        GenError::NeedStart => ("lsystem: need axiom=…"@, false, ""@),
        GenError::NeedRules => ("lsystem: need rules=A=ABA,B=.A."@, false, ""@),
        GenError::Rules(ListFault::Empty) => ("no rules"@, false, ""@),
        GenError::Rules(ListFault::NoEquals(_)) => ("rule "@, true, " needs the form X=YZ"@),
        GenError::Rules(_) => ("rule "@, true, ": left side must be one character"@),
        GenError::NoteMap(ListFault::NoEquals(_)) => (
            "map entry "@,
            true,
            " needs the form X=C4"@,
        ),
        GenError::NoteMap(ListFault::BadNote(_)) => ("bad note "@, true, " in map"@),
        GenError::NoteMap(_) => ("map entry "@, true, ": left side must be one character"@),
    }
}

/// What is said of a command that was refused: the reason, with the word it
/// was refused for in quotes.
pub open spec fn told(args: Seq<Seq<char>>, e: GenError) -> Seq<char> {
    let w = words_of(args, args.len());
    let kv = pairs_of(args, args.len());
    let (front, named, back) = told_around(e);
    if named {
        front + text::debug_text(blamed(w, kv, e)) + back
    } else {
        front
    }
}

fn word_copy(w: &Vec<&[char]>, i: usize) -> (r: Vec<char>)
    ensures
        r@ == word_or_none(text::views(w@), i as int),
{
    if i < w.len() {
        assert(text::views(w@)[i as int] == w@[i as int]@);
        text::copy_of(w[i])
    } else {
        Vec::new()
    }
}

fn word_or_kv(w: &Vec<&[char]>, i: usize, kv: &Vec<(&[char], &[char])>, key: &str) -> (r: Vec<char>)
    ensures
        r@ == word_or_value(text::views(w@), i as int, text::pair_views(kv@), key@),
{
    let ghost all = text::views(w@);
    assert(all.len() == w@.len());
    if w.len() > 0 && i < w.len() {
        assert(all[0] == w@[0]@);
        if text::is_lit(w[0], "euclid") || text::is_lit(w[0], "scale") {
            assert(all[i as int] == w@[i as int]@);
            return text::copy_of(w[i]);
        }
    }
    kv_text(kv, key, "")
}

fn copy_entry(kv: &Vec<(&[char], &[char])>, key: &str, i: usize) -> (r: Vec<char>)
    ensures
        r@ == list_entry(value_or(text::pair_views(kv@), key@, ""@), i as int),
{
    let list: Vec<char> = kv_text(kv, key, "");
    let ps: Vec<&[char]> = text::split_on(list.as_slice(), ',');
    let part: Vec<char> = word_copy(&ps, i);
    text::copy_of(text::trimmed(part.as_slice()))
}

fn rest_words<'a>(w: &Vec<&'a [char]>, k: usize) -> (r: Vec<&'a [char]>)
    ensures
        text::views(r@) == rest_of(text::views(w@), k as int),
{
    assert(text::views(w@).len() == w@.len());
    if k <= w.len() {
        words_from(w, k)
    } else {
        let r: Vec<&'a [char]> = Vec::new();
        assert(text::views(r@) =~= Seq::<Seq<char>>::empty());
        r
    }
}

fn find_blamed(w: &Vec<&[char]>, kv: &Vec<(&[char], &[char])>, e: GenError) -> (r: Vec<char>)
    ensures
        r@ == blamed(text::views(w@), text::pair_views(kv@), e),
{
    match e {
        GenError::BadChannel => word_or_kv(w, 1, kv, "ch"),
        GenError::BadKey => word_or_kv(w, 2, kv, "key"),
        GenError::BadMode => word_or_kv(w, 3, kv, "mode"),
        GenError::BadNumber(k) => kv_text(kv, name_number(k), ""),
        GenError::BadChord => word_copy(w, 1),
        GenError::UnknownDrums => word_copy(w, 1),
        GenError::BadLength => word_copy(w, 3),
        GenError::Progression(ProgressionFault::BadChord(i)) => {
            let toks: Vec<&[char]> = rest_words(w, 1);
            chord::copy_progression_token(&toks, i)
        },
        GenError::UnknownBassStyle => kv_text(kv, "style", "walking"),
        GenError::UnknownArpPattern => {
            let rest: Vec<&[char]> = rest_words(w, 2);
            if rest.len() > 0 {
                word_copy(&rest, 0)
            } else {
                kv_text(kv, "pattern", "up")
            }
        },
        GenError::Rules(ListFault::NoEquals(i)) => copy_entry(kv, "rules", i),
        GenError::Rules(ListFault::LeftSide(i)) => copy_entry(kv, "rules", i),
        GenError::NoteMap(ListFault::NoEquals(i)) => copy_entry(kv, "map", i),
        GenError::NoteMap(ListFault::LeftSide(i)) => copy_entry(kv, "map", i),
        GenError::NoteMap(ListFault::BadNote(i)) => {
            let part: Vec<char> = copy_entry(kv, "map", i);
            match text::split_at_eq(part.as_slice()) {
                Some((_, v)) => text::copy_of(v),
                None => Vec::new(),
            }
        },
        _ => Vec::new(),
    }
}

/// What comes before and after the blamed word, where one is named.
fn find_around(e: GenError) -> (r: (&'static str, bool, &'static str))
    requires
        !(e is BadNumber),
        !(e is UnknownDrums),
    ensures
        told_around(e) == (r.0@, r.1, r.2@),
{
    match e {
        GenError::Usage => ("usage: :gen four | euclid <ch> <k> <n> [off] | scale <ch> <key> [mode] [density] | chord_prog <preset|chords…> [key=Am] [steps=4] | bassline <preset|chords…> [style=walking] [key=Am] [steps=4] | arp <chord> [up|down|updown|random] [len] [rate=1] [ch=pu2] [octaves=2] | drums <preset> [fills=N] [dpcm=off] | lsystem axiom=A rules=A=ABA,B=.A. [iterations=4] [map=A=C4,B=G3,.=-] [ch=pu1] | cellular [rule=30] [ch=pu1] [key=Am] [seed=center|random]", false, ""),
        GenError::BadChannel => ("bad channel ", true, ""),
        GenError::BadHits => ("bad k", false, ""),
        GenError::BadSteps => ("bad n", false, ""),
        GenError::BadOffset => ("bad offset", false, ""),
        GenError::BadKey => ("bad key ", true, ""),
        GenError::BadMode => ("bad mode ", true, ""),
        GenError::BadDensity => ("bad density", false, ""),
        GenError::BadChord => ("bad chord ", true, ""),
        GenError::BadLength => ("bad length ", true, ""),
        GenError::Progression(ProgressionFault::BadChord(_)) => ("bad chord ", true, ""),
        GenError::Progression(ProgressionFault::Empty) => ("no chords given", false, ""),
        GenError::UnknownBassStyle => (
            "bassline: unknown style ",
            true,
            " (walking | arpeggio | root_fifth | octaves | roots)",
        ),
        GenError::UnknownArpPattern => (
            "arp: unknown pattern ",
            true,
            " (up | down | updown | random)",
        ),
        GenError::NeedStart => ("lsystem: need axiom=…", false, ""),
        GenError::NeedRules => ("lsystem: need rules=A=ABA,B=.A.", false, ""),
        GenError::Rules(ListFault::Empty) => ("no rules", false, ""),
        GenError::Rules(ListFault::NoEquals(_)) => ("rule ", true, " needs the form X=YZ"),
        GenError::Rules(_) => ("rule ", true, ": left side must be one character"),
        GenError::NoteMap(ListFault::NoEquals(_)) => ("map entry ", true, " needs the form X=C4"),
        GenError::NoteMap(ListFault::BadNote(_)) => ("bad note ", true, " in map"),
        GenError::NoteMap(_) => ("map entry ", true, ": left side must be one character"),
        _ => ("", false, ""),
    }
}

/// Says why a command was refused, and for which word.
pub fn explain(args: &[&str], e: GenError) -> (r: String)
    ensures
        r@ == told(chord::str_views(args@), e),
{
    let held: Vec<Vec<char>> = chord::chars_of_all(args);
    let slices: Vec<&[char]> = chord::slices_of(&held);
    assert(text::views(slices@) =~= chord::str_views(args@));
    let (w, kv): (Vec<&[char]>, Vec<(&[char], &[char])>) = split_args(&slices);
    let word: Vec<char> = find_blamed(&w, &kv, e);
    let quoted: String = text::debug_of(text::string_of(word.as_slice()).as_str());
    let mut m: Vec<char> = Vec::new();
    match e {
        GenError::BadNumber(k) => {
            text::put_str(&mut m, name_number(k));
            text::put_str(&mut m, "=");
            text::put_str(&mut m, quoted.as_str());
            text::put_str(&mut m, " is not a number");
        },
        GenError::UnknownDrums => {
            text::put_str(&mut m, "unknown drum preset ");
            text::put_str(&mut m, quoted.as_str());
            let ghost here = m@;
            text::put_str(&mut m, " (have: ");
            let names: Vec<char> = list_drums();
            text::put(&mut m, names.as_slice());
            text::put_str(&mut m, ")");
            assert(m@ =~= here + told_around(e).2);
        },
        _ => {
            let (front, named, back): (&'static str, bool, &'static str) = find_around(e);
            text::put_str(&mut m, front);
            if named {
                text::put_str(&mut m, quoted.as_str());
                text::put_str(&mut m, back);
            }
        },
    }
    assert(m@ =~= told(chord::str_views(args@), e));
    text::string_of(m.as_slice())
}

} // verus!
