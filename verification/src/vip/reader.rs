//! Reading a `.vip` text.
//!
//! Each line takes the reader from one state to the next; the lines are read
//! in order, and what they leave behind is then checked for references to
//! phrases and chains that do not exist.

use vstd::prelude::*;

use crate::song;
use crate::song::{
    Cell, Chain, ChainView, DpcmRef, DpcmView, Instrument, Phrase, Song, SongView, CHANNELS,
    INSTRUMENTS, STEPS_PER_PHRASE,
};
use crate::text;
use crate::vip;
use crate::vip::quote;
use crate::vip::CellFault;

verus! {

/// What is wrong with a line.
#[derive(Clone, Copy, Debug, PartialEq, Eq, Structural)]
pub enum Fault {
    Bpm,
    EditStep,
    Current,
    OrderEntry,
    Loop,
    PhraseIndexMissing,
    PhraseIndex,
    ChainIndex,
    ArrangementLoop,
    GrooveSwing,
    LengthValue,
    LengthRange,
    LengthChannel,
    InstrumentIndex,
    InstrumentRange,
    InstrumentField,
    SampleIndex,
    SampleRange,
    SampleRate,
    SampleRateRange,
    SamplePathMissing,
    RowEmpty,
    RowStep,
    RowStepRange,
    RowCell(usize, CellFault),
    ChainPhrase,
    ArrangementChain,
    GrooveTooLong,
    GrooveValue,
    /// A data row before any directive that takes rows.
    NoSection,
}

/// A line that could not be read.
#[derive(Clone, Copy, Debug, PartialEq, Eq, Structural)]
pub struct VipError {
    /// Line number, from 1.
    pub line: usize,
    pub fault: Fault,
}

/// Which directive the following data rows belong to.
#[derive(Clone, Copy, Debug, PartialEq, Eq, Structural)]
pub enum Section {
    Nothing,
    Phrase(usize),
    Chain(usize),
    Arrangement,
    Groove,
}

/// Where the reader stands between two lines.
#[verifier::ext_equal]
pub struct ReaderView {
    pub song: SongView,
    pub section: Section,
    pub groove_pos: usize,
    pub warnings: Seq<Seq<char>>,
}

// ---------------------------------------------------------------- @song

/// The text without leading copies of `c`.
pub open spec fn drop_front(s: Seq<char>, c: char) -> Seq<char>
    decreases s.len(),
{
    if s.len() > 0 && s[0] == c {
        drop_front(s.skip(1), c)
    } else {
        s
    }
}

/// The text without trailing copies of `c`.
pub open spec fn drop_back(s: Seq<char>, c: char) -> Seq<char>
    decreases s.len(),
{
    if s.len() > 0 && s.last() == c {
        drop_back(s.drop_last(), c)
    } else {
        s
    }
}

/// Hex entries appended to a list; empty entries are skipped.
pub open spec fn order_entries(acc: Seq<usize>, ps: Seq<Seq<char>>) -> Option<Seq<usize>>
    decreases ps.len(),
{
    if ps.len() == 0 {
        Some(acc)
    } else {
        let t = text::trim(ps[0]);
        if t.len() == 0 {
            order_entries(acc, ps.skip(1))
        } else {
            match text::parse_uint(t, 16, usize::MAX as nat) {
                Some(v) => order_entries(acc.push(v as usize), ps.skip(1)),
                None => None,
            }
        }
    }
}

/// The order list `[a,b,...]`.
pub open spec fn parse_order(v: Seq<char>) -> Option<Seq<usize>> {
    order_entries(Seq::empty(), text::pieces(drop_back(drop_front(v, '['), ']'), ','))
}

/// One word of an `@song` line.
pub open spec fn song_word(song: SongView, w: Seq<char>) -> Result<SongView, Fault> {
    match text::cut_word(w) {
        None => Ok(song),
        Some((k, v)) => if k == "bpm"@ {
            match text::parse_uint(v, 10, u16::MAX as nat) {
                Some(n) => Ok(SongView { bpm: n as u16, ..song }),
                None => Err(Fault::Bpm),
            }
        } else if k == "edit_step"@ {
            match text::parse_uint(v, 10, usize::MAX as nat) {
                Some(n) => Ok(SongView { edit_step: n as usize, ..song }),
                None => Err(Fault::EditStep),
            }
        } else if k == "current"@ {
            match text::parse_uint(v, 16, usize::MAX as nat) {
                Some(n) => Ok(SongView { current_phrase: n as usize, ..song }),
                None => Err(Fault::Current),
            }
        } else if k == "order"@ {
            match parse_order(v) {
                Some(o) => Ok(SongView { order: o, ..song }),
                None => Err(Fault::OrderEntry),
            }
        } else if k == "loop"@ {
            match text::parse_uint(v, 16, usize::MAX as nat) {
                Some(n) => Ok(SongView { loop_pos: n as usize, ..song }),
                None => Err(Fault::Loop),
            }
        } else {
            Ok(song)
        },
    }
}

pub open spec fn song_words(song: SongView, ws: Seq<Seq<char>>) -> Result<SongView, Fault>
    decreases ws.len(),
{
    if ws.len() == 0 {
        Ok(song)
    } else {
        match song_word(song, ws[0]) {
            Ok(s) => song_words(s, ws.skip(1)),
            Err(e) => Err(e),
        }
    }
}

fn front_dropped<'a>(s: &'a [char], c: char) -> (r: &'a [char])
    ensures
        r@ == drop_front(s@, c),
{
    let mut k: usize = 0;
    assert(s@.skip(0) =~= s@);
    while k < s.len() && s[k] == c
        invariant
            k <= s.len(),
            drop_front(s@, c) == drop_front(s@.skip(k as int), c),
        decreases s.len() - k,
    {
        assert(s@.skip(k as int).skip(1) =~= s@.skip(k + 1));
        k += 1;
    }
    text::tail(s, k)
}

fn back_dropped<'a>(s: &'a [char], c: char) -> (r: &'a [char])
    ensures
        r@ == drop_back(s@, c),
{
    let mut k: usize = s.len();
    assert(s@.take(k as int) =~= s@);
    while k > 0 && s[k - 1] == c
        invariant
            k <= s.len(),
            drop_back(s@, c) == drop_back(s@.take(k as int), c),
        decreases k,
    {
        assert(s@.take(k as int).drop_last() =~= s@.take(k - 1));
        k -= 1;
    }
    text::head(s, k)
}

fn read_order(v: &[char]) -> (r: Option<Vec<usize>>)
    ensures
        match r {
            Some(o) => parse_order(v@) == Some(o@),
            None => parse_order(v@) is None,
        },
{
    let inner: &[char] = back_dropped(front_dropped(v, '['), ']');
    let ps: Vec<&[char]> = text::split_on(inner, ',');
    let mut acc: Vec<usize> = Vec::new();
    let ghost all = text::views(ps@);
    assert(all.skip(0) =~= all);
    for i in 0..ps.len()
        invariant
            all == text::views(ps@),
            all == text::pieces(drop_back(drop_front(v@, '['), ']'), ','),
            order_entries(Seq::empty(), all) == order_entries(acc@, all.skip(i as int)),
    {
        assert(all.skip(i as int)[0] == ps@[i as int]@);
        assert(all.skip(i as int).skip(1) =~= all.skip(i + 1));
        let t: &[char] = text::trimmed(ps[i]);
        if t.len() > 0 {
            match text::read_uint(t, 16, usize::MAX as u64) {
                Some(n) => {
                    acc.push(n as usize);
                },
                None => {
                    return None;
                },
            }
        }
    }
    assert(all.skip(ps@.len() as int).len() == 0);
    Some(acc)
}

fn read_song_word(song: &mut Song, w: &[char]) -> (r: Result<(), Fault>)
    ensures
        match r {
            Ok(()) => song_word(old(song)@, w@) == Ok::<SongView, Fault>(final(song)@),
            Err(e) => song_word(old(song)@, w@) == Err::<SongView, Fault>(e),
        },
        final(song).phrases@ == old(song).phrases@,
        final(song).chains@ == old(song).chains@,
{
    if let Some((k, v)) = text::split_at_eq(w) {
        if text::is_lit(k, "bpm") {
            match text::read_uint(v, 10, u16::MAX as u64) {
                Some(n) => {
                    song.bpm = n as u16;
                },
                None => {
                    return Err(Fault::Bpm);
                },
            }
        } else if text::is_lit(k, "edit_step") {
            match text::read_uint(v, 10, usize::MAX as u64) {
                Some(n) => {
                    song.edit_step = n as usize;
                },
                None => {
                    return Err(Fault::EditStep);
                },
            }
        } else if text::is_lit(k, "current") {
            match text::read_uint(v, 16, usize::MAX as u64) {
                Some(n) => {
                    song.current_phrase = n as usize;
                },
                None => {
                    return Err(Fault::Current);
                },
            }
        } else if text::is_lit(k, "order") {
            match read_order(v) {
                Some(o) => {
                    song.order = o;
                },
                None => {
                    return Err(Fault::OrderEntry);
                },
            }
        } else if text::is_lit(k, "loop") {
            match text::read_uint(v, 16, usize::MAX as u64) {
                Some(n) => {
                    song.loop_pos = n as usize;
                },
                None => {
                    return Err(Fault::Loop);
                },
            }
        }
    }
    Ok(())
}

fn read_song(song: &mut Song, args: &[char]) -> (r: Result<(), Fault>)
    ensures
        match r {
            Ok(()) => song_words(old(song)@, text::words(args@)) == Ok::<SongView, Fault>(
                final(song)@,
            ),
            Err(e) => song_words(old(song)@, text::words(args@)) == Err::<SongView, Fault>(e),
        },
        final(song).phrases@ == old(song).phrases@,
        final(song).chains@ == old(song).chains@,
{
    let ws: Vec<&[char]> = text::split_words(args);
    let ghost all = text::views(ws@);
    let ghost start = song@;
    assert(all.skip(0) =~= all);
    for i in 0..ws.len()
        invariant
            all == text::views(ws@),
            all == text::words(args@),
            start == old(song)@,
            song_words(start, all) == song_words(song@, all.skip(i as int)),
            song.phrases@ == old(song).phrases@,
            song.chains@ == old(song).chains@,
    {
        assert(all.skip(i as int)[0] == ws@[i as int]@);
        assert(all.skip(i as int).skip(1) =~= all.skip(i + 1));
        read_song_word(song, ws[i])?;
    }
    assert(all.skip(ws@.len() as int).len() == 0);
    Ok(())
}

// ---------------------------------------------------------------- @instr

/// An instrument with one of its fields read. The envelope's fields have a
/// long and a short name.
pub open spec fn instr_word(inst: Instrument, w: Seq<char>) -> Result<Instrument, Fault> {
    match text::cut_word(w) {
        None => Ok(inst),
        Some((k, v)) => if k == "a"@ || k == "attack"@ {
            match text::parse_uint(v, 10, u16::MAX as nat) {
                Some(n) => Ok(Instrument { attack_ms: n as u16, ..inst }),
                None => Err(Fault::InstrumentField),
            }
        } else if k == "d"@ || k == "decay"@ {
            match text::parse_uint(v, 10, u16::MAX as nat) {
                Some(n) => Ok(Instrument { decay_ms: n as u16, ..inst }),
                None => Err(Fault::InstrumentField),
            }
        } else if k == "s"@ || k == "sustain"@ {
            match text::parse_milli(v) {
                Some(n) => Ok(Instrument { sustain: n as i32, ..inst }),
                None => Err(Fault::InstrumentField),
            }
        } else if k == "r"@ || k == "release"@ {
            match text::parse_uint(v, 10, u16::MAX as nat) {
                Some(n) => Ok(Instrument { release_ms: n as u16, ..inst }),
                None => Err(Fault::InstrumentField),
            }
        } else if k == "duty"@ {
            match text::parse_milli(v) {
                Some(n) => Ok(Instrument { duty: n as i32, ..inst }),
                None => Err(Fault::InstrumentField),
            }
        } else if k == "vol"@ {
            match text::parse_milli(v) {
                Some(n) => Ok(Instrument { volume: n as i32, ..inst }),
                None => Err(Fault::InstrumentField),
            }
        } else {
            Ok(inst)
        },
    }
}

pub open spec fn instr_words(inst: Instrument, ws: Seq<Seq<char>>) -> Result<Instrument, Fault>
    decreases ws.len(),
{
    if ws.len() == 0 {
        Ok(inst)
    } else {
        match instr_word(inst, ws[0]) {
            Ok(i) => instr_words(i, ws.skip(1)),
            Err(e) => Err(e),
        }
    }
}

pub open spec fn instr_line(song: SongView, args: Seq<char>) -> Result<SongView, Fault> {
    let (tok, rest) = text::first_word(args);
    match text::parse_uint(tok, 16, usize::MAX as nat) {
        None => Err(Fault::InstrumentIndex),
        Some(idx) => if idx >= INSTRUMENTS {
            Err(Fault::InstrumentRange)
        } else {
            match instr_words(song.instruments[idx as int], text::words(rest)) {
                Ok(inst) => Ok(
                    SongView { instruments: song.instruments.update(idx as int, inst), ..song },
                ),
                Err(e) => Err(e),
            }
        },
    }
}

pub fn read_ms(v: &[char]) -> (r: Option<u16>)
    ensures
        match r {
            Some(n) => text::parse_uint(v@, 10, u16::MAX as nat) == Some(n as nat),
            None => text::parse_uint(v@, 10, u16::MAX as nat) is None,
        },
{
    match text::read_uint(v, 10, u16::MAX as u64) {
        Some(n) => Some(n as u16),
        None => None,
    }
}

/// One field of an instrument.
pub fn read_instr_word(inst: Instrument, w: &[char]) -> (r: Result<Instrument, Fault>)
    ensures
        r == instr_word(inst, w@),
{
    let mut inst: Instrument = inst;
    if let Some((k, v)) = text::split_at_eq(w) {
        if text::is_lit(k, "a") || text::is_lit(k, "attack") {
            match read_ms(v) {
                Some(n) => {
                    inst.attack_ms = n;
                },
                None => {
                    return Err(Fault::InstrumentField);
                },
            }
        } else if text::is_lit(k, "d") || text::is_lit(k, "decay") {
            match read_ms(v) {
                Some(n) => {
                    inst.decay_ms = n;
                },
                None => {
                    return Err(Fault::InstrumentField);
                },
            }
        } else if text::is_lit(k, "s") || text::is_lit(k, "sustain") {
            match text::read_milli(v) {
                Some(n) => {
                    inst.sustain = n;
                },
                None => {
                    return Err(Fault::InstrumentField);
                },
            }
        } else if text::is_lit(k, "r") || text::is_lit(k, "release") {
            match read_ms(v) {
                Some(n) => {
                    inst.release_ms = n;
                },
                None => {
                    return Err(Fault::InstrumentField);
                },
            }
        } else if text::is_lit(k, "duty") {
            match text::read_milli(v) {
                Some(n) => {
                    inst.duty = n;
                },
                None => {
                    return Err(Fault::InstrumentField);
                },
            }
        } else if text::is_lit(k, "vol") {
            match text::read_milli(v) {
                Some(n) => {
                    inst.volume = n;
                },
                None => {
                    return Err(Fault::InstrumentField);
                },
            }
        }
    }
    Ok(inst)
}

fn read_instr(song: &mut Song, args: &[char]) -> (r: Result<(), Fault>)
    ensures
        match r {
            Ok(()) => instr_line(old(song)@, args@) == Ok::<SongView, Fault>(final(song)@),
            Err(e) => instr_line(old(song)@, args@) == Err::<SongView, Fault>(e),
        },
        final(song).phrases@ == old(song).phrases@,
        final(song).chains@ == old(song).chains@,
{
    let (tok, rest): (&[char], &[char]) = text::split_first_word(args);
    let idx: usize = match text::read_uint(tok, 16, usize::MAX as u64) {
        Some(n) => n as usize,
        None => {
            return Err(Fault::InstrumentIndex);
        },
    };
    if idx >= INSTRUMENTS {
        return Err(Fault::InstrumentRange);
    }
    let ws: Vec<&[char]> = text::split_words(rest);
    let ghost all = text::views(ws@);
    let mut inst: Instrument = song.instruments[idx];
    let ghost start = inst;
    assert(all.skip(0) =~= all);
    for i in 0..ws.len()
        invariant
            all == text::views(ws@),
            instr_words(start, all) == instr_words(inst, all.skip(i as int)),
            *song == *old(song),
            idx < INSTRUMENTS,
            (tok@, rest@) == text::first_word(args@),
            text::parse_uint(tok@, 16, usize::MAX as nat) == Some(idx as nat),
            start == song@.instruments[idx as int],
            all == text::words(rest@),
    {
        assert(all.skip(i as int)[0] == ws@[i as int]@);
        assert(all.skip(i as int).skip(1) =~= all.skip(i + 1));
        inst = read_instr_word(inst, ws[i])?;
    }
    assert(all.skip(ws@.len() as int).len() == 0);
    song.instruments[idx] = inst;
    Ok(())
}

// ---------------------------------------------------------------- @length

pub open spec fn length_channel(k: Seq<char>) -> Option<int> {
    if k == "pu1"@ {
        Some(0)
    } else if k == "pu2"@ {
        Some(1)
    } else if k == "tri"@ {
        Some(2)
    } else if k == "noi"@ {
        Some(3)
    } else if k == "dpcm"@ {
        Some(4)
    } else {
        None
    }
}

pub open spec fn length_word(len: Seq<u8>, w: Seq<char>) -> Result<Seq<u8>, Fault> {
    match text::cut_word(w) {
        None => Ok(len),
        Some((k, v)) => match text::parse_uint(v, 10, 255) {
            None => Err(Fault::LengthValue),
            Some(n) => if n == 0 || n > STEPS_PER_PHRASE {
                Err(Fault::LengthRange)
            } else {
                match length_channel(k) {
                    Some(ch) => Ok(len.update(ch, n as u8)),
                    None => Err(Fault::LengthChannel),
                }
            },
        },
    }
}

pub open spec fn length_words(len: Seq<u8>, ws: Seq<Seq<char>>) -> Result<Seq<u8>, Fault>
    decreases ws.len(),
{
    if ws.len() == 0 {
        Ok(len)
    } else {
        match length_word(len, ws[0]) {
            Ok(l) => length_words(l, ws.skip(1)),
            Err(e) => Err(e),
        }
    }
}

pub(crate) fn find_length_channel(k: &[char]) -> (r: Option<usize>)
    ensures
        match r {
            Some(c) => length_channel(k@) == Some(c as int) && c < CHANNELS,
            None => length_channel(k@) is None,
        },
{
    if text::is_lit(k, "pu1") {
        Some(0)
    } else if text::is_lit(k, "pu2") {
        Some(1)
    } else if text::is_lit(k, "tri") {
        Some(2)
    } else if text::is_lit(k, "noi") {
        Some(3)
    } else if text::is_lit(k, "dpcm") {
        Some(4)
    } else {
        None
    }
}

fn read_length(song: &mut Song, args: &[char]) -> (r: Result<(), Fault>)
    ensures
        match r {
            Ok(()) => length_words(old(song)@.channel_length, text::words(args@)) == Ok::<
                Seq<u8>,
                Fault,
            >(final(song)@.channel_length) && final(song)@ == (SongView {
                channel_length: final(song)@.channel_length,
                ..old(song)@
            }),
            Err(e) => length_words(old(song)@.channel_length, text::words(args@)) == Err::<
                Seq<u8>,
                Fault,
            >(e),
        },
        final(song).phrases@ == old(song).phrases@,
        final(song).chains@ == old(song).chains@,
{
    let ws: Vec<&[char]> = text::split_words(args);
    let ghost all = text::views(ws@);
    let mut len: [u8; CHANNELS] = song.channel_length;
    let ghost start = len@;
    assert(all.skip(0) =~= all);
    for i in 0..ws.len()
        invariant
            all == text::views(ws@),
            all == text::words(args@),
            start == song@.channel_length,
            length_words(start, all) == length_words(len@, all.skip(i as int)),
            *song == *old(song),
    {
        assert(all.skip(i as int)[0] == ws@[i as int]@);
        assert(all.skip(i as int).skip(1) =~= all.skip(i + 1));
        if let Some((k, v)) = text::split_at_eq(ws[i]) {
            let n: u64 = match text::read_uint(v, 10, 255) {
                Some(n) => n,
                None => {
                    return Err(Fault::LengthValue);
                },
            };
            if n == 0 || n > STEPS_PER_PHRASE as u64 {
                return Err(Fault::LengthRange);
            }
            match find_length_channel(k) {
                Some(ch) => {
                    len[ch] = n as u8;
                },
                None => {
                    return Err(Fault::LengthChannel);
                },
            }
        }
    }
    assert(all.skip(ws@.len() as int).len() == 0);
    song.channel_length = len;
    Ok(())
}

// ---------------------------------------------------------------- @meta, @driver, @dpcm

pub open spec fn meta_pairs(
    song: SongView,
    ps: Seq<(Seq<char>, Seq<char>)>,
) -> SongView
    decreases ps.len(),
{
    if ps.len() == 0 {
        song
    } else {
        let (k, v) = ps[0];
        let next = if k == "title"@ {
            SongView { title: v, ..song }
        } else if k == "artist"@ || k == "composer"@ || k == "author"@ {
            SongView { artist: v, ..song }
        } else if k == "license"@ || k == "copyright"@ {
            SongView { copyright: v, ..song }
        } else if k == "key"@ {
            SongView { key_name: v, ..song }
        } else {
            song
        };
        meta_pairs(next, ps.skip(1))
    }
}

fn read_meta(song: &mut Song, args: &[char])
    ensures
        final(song)@ == meta_pairs(old(song)@, quote::pairs(args@)),
        final(song).phrases@ == old(song).phrases@,
        final(song).chains@ == old(song).chains@,
{
    let ps: Vec<(Vec<char>, Vec<char>)> = quote::kv_quoted(args);
    let ghost all = quote::pair_views(ps@);
    let ghost start = song@;
    assert(all.skip(0) =~= all);
    for i in 0..ps.len()
        invariant
            all == quote::pair_views(ps@),
            meta_pairs(start, all) == meta_pairs(song@, all.skip(i as int)),
            song.phrases@ == old(song).phrases@,
            song.chains@ == old(song).chains@,
    {
        assert(all.skip(i as int)[0] == (ps@[i as int].0@, ps@[i as int].1@));
        assert(all.skip(i as int).skip(1) =~= all.skip(i + 1));
        let k: &[char] = ps[i].0.as_slice();
        let v: &[char] = ps[i].1.as_slice();
        if text::is_lit(k, "title") {
            song.title = text::string_of(v);
        } else if text::is_lit(k, "artist") || text::is_lit(k, "composer") || text::is_lit(
            k,
            "author",
        ) {
            song.artist = text::string_of(v);
        } else if text::is_lit(k, "license") || text::is_lit(k, "copyright") {
            song.copyright = text::string_of(v);
        } else if text::is_lit(k, "key") {
            song.key_name = text::string_of(v);
        }
    }
    assert(all.skip(ps@.len() as int).len() == 0);
}

/// What a `@driver` line has said so far: the binary, the symbol file, and
/// whether the expansion chip is used.
pub open spec fn driver_pairs(
    bin: Option<Seq<char>>,
    sym: Option<Seq<char>>,
    expansion: bool,
    ps: Seq<(Seq<char>, Seq<char>)>,
) -> (Option<Seq<char>>, Option<Seq<char>>, bool)
    decreases ps.len(),
{
    if ps.len() == 0 {
        (bin, sym, expansion)
    } else {
        let (k, v) = ps[0];
        if k == "bin"@ || k == "path"@ {
            driver_pairs(Some(v), sym, expansion, ps.skip(1))
        } else if k == "sym"@ {
            driver_pairs(bin, Some(v), expansion, ps.skip(1))
        } else if k == "expansion"@ {
            driver_pairs(bin, sym, text::lower(v) == "vrc6"@, ps.skip(1))
        } else {
            driver_pairs(bin, sym, expansion, ps.skip(1))
        }
    }
}

pub open spec fn driver_line(song: SongView, args: Seq<char>) -> SongView {
    let (bin, sym, expansion) = driver_pairs(None, None, song.expansion, quote::pairs(args));
    SongView {
        expansion,
        driver: match bin {
            Some(b) => Some(
                (
                    b,
                    match sym {
                        Some(s) => s,
                        None => text::with_extension(b, "sym"@),
                    },
                ),
            ),
            None => song.driver,
        },
        ..song
    }
}

fn read_driver(song: &mut Song, args: &[char])
    ensures
        final(song)@ == driver_line(old(song)@, args@),
        final(song).phrases@ == old(song).phrases@,
        final(song).chains@ == old(song).chains@,
{
    let ps: Vec<(Vec<char>, Vec<char>)> = quote::kv_quoted(args);
    let ghost all = quote::pair_views(ps@);
    let mut bin: Option<&[char]> = None;
    let mut sym: Option<&[char]> = None;
    let mut expansion: bool = song.expansion;
    assert(all.skip(0) =~= all);
    for i in 0..ps.len()
        invariant
            all == quote::pair_views(ps@),
            *song == *old(song),
            driver_pairs(None, None, song.expansion, all) == driver_pairs(
                opt_view(bin),
                opt_view(sym),
                expansion,
                all.skip(i as int),
            ),
    {
        assert(all.skip(i as int)[0] == (ps@[i as int].0@, ps@[i as int].1@));
        assert(all.skip(i as int).skip(1) =~= all.skip(i + 1));
        let k: &[char] = ps[i].0.as_slice();
        let v: &[char] = ps[i].1.as_slice();
        if text::is_lit(k, "bin") || text::is_lit(k, "path") {
            bin = Some(v);
        } else if text::is_lit(k, "sym") {
            sym = Some(v);
        } else if text::is_lit(k, "expansion") {
            let l: Vec<char> = text::lower_of(v);
            expansion = text::is_lit(l.as_slice(), "vrc6");
        }
    }
    assert(all.skip(ps@.len() as int).len() == 0);
    song.expansion = expansion;
    if let Some(b) = bin {
        let s: String = match sym {
            Some(s) => text::string_of(s),
            None => {
                let p: Vec<char> = text::extended(b, "sym");
                text::string_of(p.as_slice())
            },
        };
        song.driver = Some((text::string_of(b), s));
    }
}

pub open spec fn opt_view(s: Option<&[char]>) -> Option<Seq<char>> {
    match s {
        Some(x) => Some(x@),
        None => None,
    }
}

/// What a `@dpcm` line has said so far: name, path and rate.
pub open spec fn sample_pairs(
    name: Seq<char>,
    path: Option<Seq<char>>,
    rate: u8,
    ps: Seq<(Seq<char>, Seq<char>)>,
) -> Result<(Seq<char>, Option<Seq<char>>, u8), Fault>
    decreases ps.len(),
{
    if ps.len() == 0 {
        Ok((name, path, rate))
    } else {
        let (k, v) = ps[0];
        if k == "name"@ {
            sample_pairs(v, path, rate, ps.skip(1))
        } else if k == "path"@ || k == "file"@ {
            sample_pairs(name, Some(v), rate, ps.skip(1))
        } else if k == "rate"@ {
            match text::parse_uint(v, 10, 255) {
                None => Err(Fault::SampleRate),
                Some(n) => if n > 15 {
                    Err(Fault::SampleRateRange)
                } else {
                    sample_pairs(name, path, n as u8, ps.skip(1))
                },
            }
        } else {
            sample_pairs(name, path, rate, ps.skip(1))
        }
    }
}

/// The list grown with blank slots until it holds `idx`.
pub open spec fn grown<T>(s: Seq<T>, idx: nat, blank: T) -> Seq<T> {
    if s.len() > idx {
        s
    } else {
        s + Seq::new((idx + 1 - s.len()) as nat, |i: int| blank)
    }
}

pub open spec fn sample_line(song: SongView, args: Seq<char>) -> Result<SongView, Fault> {
    let (tok, rest) = text::first_word(args);
    match text::parse_uint(tok, 16, usize::MAX as nat) {
        None => Err(Fault::SampleIndex),
        Some(idx) => if idx > 63 {
            Err(Fault::SampleRange)
        } else {
            match sample_pairs("sample"@ + text::hex2(idx), None, 15, quote::pairs(rest)) {
                Err(e) => Err(e),
                Ok((name, path, rate)) => match path {
                    None => Err(Fault::SamplePathMissing),
                    Some(path) => Ok(
                        SongView {
                            samples: grown(song.samples, idx, song::blank_sample()).update(
                                idx as int,
                                DpcmView { name, path, rate },
                            ),
                            ..song
                        },
                    ),
                },
            }
        },
    }
}

fn read_sample(song: &mut Song, args: &[char]) -> (r: Result<(), Fault>)
    ensures
        match r {
            Ok(()) => sample_line(old(song)@, args@) == Ok::<SongView, Fault>(final(song)@),
            Err(e) => sample_line(old(song)@, args@) == Err::<SongView, Fault>(e),
        },
        final(song).phrases@ == old(song).phrases@,
        final(song).chains@ == old(song).chains@,
{
    let (tok, rest): (&[char], &[char]) = text::split_first_word(args);
    let idx: usize = match text::read_uint(tok, 16, usize::MAX as u64) {
        Some(n) => n as usize,
        None => {
            return Err(Fault::SampleIndex);
        },
    };
    if idx > 63 {
        return Err(Fault::SampleRange);
    }
    let mut default_name: Vec<char> = Vec::new();
    text::put_str(&mut default_name, "sample");
    text::put_hex2(&mut default_name, idx as u64);
    assert(default_name@ =~= "sample"@ + text::hex2(idx as nat));
    let mut name: &[char] = default_name.as_slice();
    let mut path: Option<&[char]> = None;
    let mut rate: u8 = 15;
    let ps: Vec<(Vec<char>, Vec<char>)> = quote::kv_quoted(rest);
    let ghost all = quote::pair_views(ps@);
    assert(all.skip(0) =~= all);
    for i in 0..ps.len()
        invariant
            all == quote::pair_views(ps@),
            *song == *old(song),
            idx <= 63,
            (tok@, rest@) == text::first_word(args@),
            text::parse_uint(tok@, 16, usize::MAX as nat) == Some(idx as nat),
            all == quote::pairs(rest@),
            sample_pairs("sample"@ + text::hex2(idx as nat), None, 15, all) == sample_pairs(
                name@,
                opt_view(path),
                rate,
                all.skip(i as int),
            ),
    {
        assert(all.skip(i as int)[0] == (ps@[i as int].0@, ps@[i as int].1@));
        assert(all.skip(i as int).skip(1) =~= all.skip(i + 1));
        let k: &[char] = ps[i].0.as_slice();
        let v: &[char] = ps[i].1.as_slice();
        if text::is_lit(k, "name") {
            name = v;
        } else if text::is_lit(k, "path") || text::is_lit(k, "file") {
            path = Some(v);
        } else if text::is_lit(k, "rate") {
            match text::read_uint(v, 10, 255) {
                None => {
                    return Err(Fault::SampleRate);
                },
                Some(n) => {
                    if n > 15 {
                        return Err(Fault::SampleRateRange);
                    }
                    rate = n as u8;
                },
            }
        }
    }
    assert(all.skip(ps@.len() as int).len() == 0);
    let path: &[char] = match path {
        Some(p) => p,
        None => {
            return Err(Fault::SamplePathMissing);
        },
    };
    let ghost start = song.samples@;
    while song.samples.len() <= idx
        invariant
            idx <= 63,
            start.len() <= song.samples@.len(),
            song.samples@.len() <= idx + 1 || song.samples@ == start,
            forall|i: int| 0 <= i < start.len() ==> song.samples@[i] == start[i],
            forall|i: int|
                start.len() <= i < song.samples@.len() ==> #[trigger] song.samples@[i]@
                    == song::blank_sample(),
            song@ == (SongView { samples: song@.samples, ..old(song)@ }),
            song.phrases@ == old(song).phrases@,
            song.chains@ == old(song).chains@,
        decreases idx + 1 - song.samples@.len(),
    {
        song.samples.push(DpcmRef::blank());
    }
    assert(song@.samples =~= grown(old(song)@.samples, idx as nat, song::blank_sample()));
    let r: DpcmRef = DpcmRef { name: text::string_of(name), path: text::string_of(path), rate };
    let ghost before = song@.samples;
    song.samples[idx] = r;
    assert(song@.samples =~= before.update(idx as int, r@));
    Ok(())
}

// ---------------------------------------------------------------- @phrase, @chain, @arrangement, @groove

pub open spec fn chain_name(
    name: Option<Seq<char>>,
    ps: Seq<(Seq<char>, Seq<char>)>,
) -> Option<Seq<char>>
    decreases ps.len(),
{
    if ps.len() == 0 {
        name
    } else if ps[0].0 == "name"@ && ps[0].1.len() > 0 {
        chain_name(Some(ps[0].1), ps.skip(1))
    } else {
        chain_name(name, ps.skip(1))
    }
}

pub open spec fn held_view(s: Option<Vec<char>>) -> Option<Seq<char>> {
    match s {
        Some(x) => Some(x@),
        None => None,
    }
}

fn read_chain_name(args: &[char]) -> (r: Option<Vec<char>>)
    ensures
        held_view(r) == chain_name(None, quote::pairs(args@)),
{
    let ps: Vec<(Vec<char>, Vec<char>)> = quote::kv_quoted(args);
    let ghost all = quote::pair_views(ps@);
    let mut name: Option<Vec<char>> = None;
    assert(all.skip(0) =~= all);
    for i in 0..ps.len()
        invariant
            all == quote::pair_views(ps@),
            chain_name(None, all) == chain_name(held_view(name), all.skip(i as int)),
    {
        assert(all.skip(i as int)[0] == (ps@[i as int].0@, ps@[i as int].1@));
        assert(all.skip(i as int).skip(1) =~= all.skip(i + 1));
        if text::is_lit(ps[i].0.as_slice(), "name") && ps[i].1.len() > 0 {
            name = Some(text::copy_of(ps[i].1.as_slice()));
        }
    }
    assert(all.skip(ps@.len() as int).len() == 0);
    name
}

pub open spec fn arr_words(at: usize, ws: Seq<Seq<char>>) -> Option<usize>
    decreases ws.len(),
{
    if ws.len() == 0 {
        Some(at)
    } else {
        match text::cut_word(ws[0]) {
            Some((k, v)) => if k == "loop"@ {
                match text::parse_uint(v, 16, usize::MAX as nat) {
                    Some(n) => arr_words(n as usize, ws.skip(1)),
                    None => None,
                }
            } else {
                arr_words(at, ws.skip(1))
            },
            None => arr_words(at, ws.skip(1)),
        }
    }
}

fn read_arr_loop(at: usize, args: &[char]) -> (r: Option<usize>)
    ensures
        r == arr_words(at, text::words(args@)),
{
    let ws: Vec<&[char]> = text::split_words(args);
    let ghost all = text::views(ws@);
    let mut cur: usize = at;
    assert(all.skip(0) =~= all);
    for i in 0..ws.len()
        invariant
            all == text::views(ws@),
            all == text::words(args@),
            arr_words(at, all) == arr_words(cur, all.skip(i as int)),
    {
        assert(all.skip(i as int)[0] == ws@[i as int]@);
        assert(all.skip(i as int).skip(1) =~= all.skip(i + 1));
        if let Some((k, v)) = text::split_at_eq(ws[i]) {
            if text::is_lit(k, "loop") {
                match text::read_uint(v, 16, usize::MAX as u64) {
                    Some(n) => {
                        cur = n as usize;
                    },
                    None => {
                        return None;
                    },
                }
            }
        }
    }
    assert(all.skip(ws@.len() as int).len() == 0);
    Some(cur)
}

/// The last `swing=` of a `@groove` line, if there is one.
pub open spec fn swing_words(
    found: Option<i16>,
    ws: Seq<Seq<char>>,
) -> Result<Option<i16>, Fault>
    decreases ws.len(),
{
    if ws.len() == 0 {
        Ok(found)
    } else {
        match text::cut_word(ws[0]) {
            Some((k, v)) => if k == "swing"@ {
                match text::parse_int(v, 32768, 32767) {
                    Some(n) => swing_words(Some(n as i16), ws.skip(1)),
                    None => Err(Fault::GrooveSwing),
                }
            } else {
                swing_words(found, ws.skip(1))
            },
            None => swing_words(found, ws.skip(1)),
        }
    }
}

fn read_swing(args: &[char]) -> (r: Result<Option<i16>, Fault>)
    ensures
        r == swing_words(None, text::words(args@)),
{
    let ws: Vec<&[char]> = text::split_words(args);
    let ghost all = text::views(ws@);
    let mut found: Option<i16> = None;
    assert(all.skip(0) =~= all);
    for i in 0..ws.len()
        invariant
            all == text::views(ws@),
            all == text::words(args@),
            swing_words(None, all) == swing_words(found, all.skip(i as int)),
    {
        assert(all.skip(i as int)[0] == ws@[i as int]@);
        assert(all.skip(i as int).skip(1) =~= all.skip(i + 1));
        if let Some((k, v)) = text::split_at_eq(ws[i]) {
            if text::is_lit(k, "swing") {
                match text::read_int(v, 32768, 32767) {
                    Some(n) => {
                        found = Some(n as i16);
                    },
                    None => {
                        return Err(Fault::GrooveSwing);
                    },
                }
            }
        }
    }
    assert(all.skip(ws@.len() as int).len() == 0);
    Ok(found)
}

// ---------------------------------------------------------------- data rows

/// Hex bytes appended to a list.
pub open spec fn byte_words(acc: Seq<u8>, ws: Seq<Seq<char>>) -> Option<Seq<u8>>
    decreases ws.len(),
{
    if ws.len() == 0 {
        Some(acc)
    } else {
        match text::parse_uint(ws[0], 16, 255) {
            Some(n) => byte_words(acc.push(n as u8), ws.skip(1)),
            None => None,
        }
    }
}

fn read_bytes(line: &[char]) -> (r: Option<Vec<u8>>)
    ensures
        match r {
            Some(v) => forall|acc: Seq<u8>|
                #[trigger] byte_words(acc, text::words(line@)) == Some(acc + v@),
            None => forall|acc: Seq<u8>|
                #[trigger] byte_words(acc, text::words(line@)) is None,
        },
{
    let ws: Vec<&[char]> = text::split_words(line);
    let ghost all = text::views(ws@);
    let mut out: Vec<u8> = Vec::new();
    assert(all.skip(0) =~= all);
    assert forall|acc: Seq<u8>| #[trigger] byte_words(acc, all) == byte_words(
        acc + out@,
        all.skip(0),
    ) by {
        assert(acc + out@ =~= acc);
    }
    for i in 0..ws.len()
        invariant
            all == text::views(ws@),
            all == text::words(line@),
            forall|acc: Seq<u8>|
                #[trigger] byte_words(acc, all) == byte_words(acc + out@, all.skip(i as int)),
    {
        assert(all.skip(i as int)[0] == ws@[i as int]@);
        assert(all.skip(i as int).skip(1) =~= all.skip(i + 1));
        match text::read_uint(ws[i], 16, 255) {
            Some(n) => {
                let ghost before = out@;
                out.push(n as u8);
                assert forall|acc: Seq<u8>| #[trigger] byte_words(acc, all) == byte_words(
                    acc + out@,
                    all.skip(i + 1),
                ) by {
                    assert(acc + out@ =~= (acc + before).push(n as u8));
                }
            },
            None => {
                return None;
            },
        }
    }
    assert(all.skip(ws@.len() as int).len() == 0);
    Some(out)
}

pub open spec fn groove_words(
    groove: Seq<i16>,
    pos: usize,
    ws: Seq<Seq<char>>,
) -> Result<(Seq<i16>, usize), Fault>
    decreases ws.len(),
{
    if ws.len() == 0 {
        Ok((groove, pos))
    } else if pos >= 16 {
        Err(Fault::GrooveTooLong)
    } else {
        match text::parse_int(ws[0], 32768, 32767) {
            Some(n) => groove_words(groove.update(pos as int, n as i16), (pos + 1) as usize, ws.skip(1)),
            None => Err(Fault::GrooveValue),
        }
    }
}

/// The cells of a data row from channel `ch` on; missing ones are empty.
pub open spec fn row_cells(
    g: Seq<Seq<Cell>>,
    step: int,
    ws: Seq<Seq<char>>,
    ch: nat,
) -> Result<Seq<Seq<Cell>>, Fault>
    decreases CHANNELS - ch,
{
    if ch >= CHANNELS {
        Ok(g)
    } else {
        let tok = if ch + 1 < ws.len() {
            ws[(ch + 1) as int]
        } else {
            "---"@
        };
        match vip::parse_cell(tok) {
            Ok(c) => row_cells(song::put_cell(g, step, ch as int, c), step, ws, ch + 1),
            Err(e) => Err(Fault::RowCell(ch as usize, e)),
        }
    }
}

/// A data row of a phrase: a hex step, then a cell per channel.
pub open spec fn row_line(g: Seq<Seq<Cell>>, line: Seq<char>) -> Result<Seq<Seq<Cell>>, Fault> {
    let ws = text::words(line);
    if ws.len() == 0 {
        Err(Fault::RowEmpty)
    } else {
        match text::parse_uint(ws[0], 16, usize::MAX as nat) {
            None => Err(Fault::RowStep),
            Some(step) => if step >= STEPS_PER_PHRASE {
                Err(Fault::RowStepRange)
            } else {
                row_cells(g, step as int, ws, 0)
            },
        }
    }
}

fn read_row(p: &mut Phrase, line: &[char]) -> (r: Result<(), Fault>)
    ensures
        match r {
            Ok(()) => row_line(old(p)@, line@) == Ok::<Seq<Seq<Cell>>, Fault>(final(p)@),
            Err(e) => row_line(old(p)@, line@) == Err::<Seq<Seq<Cell>>, Fault>(e),
        },
{
    let ws: Vec<&[char]> = text::split_words(line);
    let ghost all = text::views(ws@);
    if ws.len() == 0 {
        return Err(Fault::RowEmpty);
    }
    assert(all[0] == ws@[0]@);
    let step: usize = match text::read_uint(ws[0], 16, usize::MAX as u64) {
        Some(n) => n as usize,
        None => {
            return Err(Fault::RowStep);
        },
    };
    if step >= STEPS_PER_PHRASE {
        return Err(Fault::RowStepRange);
    }
    let ghost start = p@;
    let mut ch: usize = 0;
    while ch < CHANNELS
        invariant
            ch <= CHANNELS,
            step < STEPS_PER_PHRASE,
            all == text::views(ws@),
            all == text::words(line@),
            all.len() > 0,
            text::parse_uint(all[0], 16, usize::MAX as nat) == Some(step as nat),
            start == old(p)@,
            row_cells(start, step as int, all, 0) == row_cells(p@, step as int, all, ch as nat),
        decreases CHANNELS - ch,
    {
        let cell: Result<Cell, CellFault> = if ch + 1 < ws.len() {
            assert(all[ch + 1] == ws@[ch + 1]@);
            vip::read_cell(ws[ch + 1])
        } else {
            vip::decode_cell("---")
        };
        match cell {
            Ok(c) => {
                p.put(step, ch, c);
            },
            Err(e) => {
                return Err(Fault::RowCell(ch, e));
            },
        }
        ch += 1;
    }
    Ok(())
}

// ---------------------------------------------------------------- one line

/// The warning for a directive that is not read.
pub open spec fn unread_warning(n: nat, dir: Seq<char>) -> Seq<char> {
    if dir == "scene"@ || dir == "bind"@ || dir == "sprite"@ {
        "line "@ + text::dec(n) + ": @"@ + dir + " reserved but not implemented — ignored"@
    } else {
        "line "@ + text::dec(n) + ": unknown @"@ + dir + " directive — ignored"@
    }
}

/// What a directive does to the reader.
pub open spec fn directive(
    st: ReaderView,
    n: nat,
    dir: Seq<char>,
    args: Seq<char>,
) -> Result<ReaderView, Fault> {
    if dir == "song"@ {
        match song_words(st.song, text::words(args)) {
            Ok(s) => Ok(ReaderView { song: s, section: Section::Nothing, ..st }),
            Err(e) => Err(e),
        }
    } else if dir == "phrase"@ {
        let ws = text::words(args);
        if ws.len() == 0 {
            Err(Fault::PhraseIndexMissing)
        } else {
            match text::parse_uint(ws[0], 16, usize::MAX as nat) {
                None => Err(Fault::PhraseIndex),
                Some(idx) => Ok(
                    ReaderView {
                        song: SongView {
                            phrases: grown(st.song.phrases, idx, song::empty_grid()),
                            ..st.song
                        },
                        section: Section::Phrase(idx as usize),
                        ..st
                    },
                ),
            }
        }
    } else if dir == "chain"@ {
        let (tok, rest) = text::first_word(args);
        match text::parse_uint(tok, 16, usize::MAX as nat) {
            None => Err(Fault::ChainIndex),
            Some(idx) => {
                let chains = grown(st.song.chains, idx, song::empty_chain());
                let name = chain_name(None, quote::pairs(rest));
                Ok(
                    ReaderView {
                        song: SongView {
                            chains: chains.update(
                                idx as int,
                                ChainView { name, ..chains[idx as int] },
                            ),
                            ..st.song
                        },
                        section: Section::Chain(idx as usize),
                        ..st
                    },
                )
            },
        }
    } else if dir == "arrangement"@ || dir == "arr"@ {
        match arr_words(st.song.arr_loop, text::words(args)) {
            Some(at) => Ok(
                ReaderView {
                    song: SongView { arr_loop: at, ..st.song },
                    section: Section::Arrangement,
                    ..st
                },
            ),
            None => Err(Fault::ArrangementLoop),
        }
    } else if dir == "groove"@ {
        match swing_words(None, text::words(args)) {
            Err(e) => Err(e),
            Ok(Some(s)) => Ok(
                ReaderView {
                    song: SongView { groove: vip::swing(s), ..st.song },
                    section: Section::Nothing,
                    groove_pos: 0,
                    ..st
                },
            ),
            Ok(None) => Ok(ReaderView { section: Section::Groove, groove_pos: 0, ..st }),
        }
    } else if dir == "length"@ || dir == "len"@ {
        match length_words(st.song.channel_length, text::words(args)) {
            Ok(l) => Ok(
                ReaderView {
                    song: SongView { channel_length: l, ..st.song },
                    section: Section::Nothing,
                    ..st
                },
            ),
            Err(e) => Err(e),
        }
    } else if dir == "instr"@ {
        match instr_line(st.song, args) {
            Ok(s) => Ok(ReaderView { song: s, section: Section::Nothing, ..st }),
            Err(e) => Err(e),
        }
    } else if dir == "meta"@ {
        Ok(
            ReaderView {
                song: meta_pairs(st.song, quote::pairs(args)),
                section: Section::Nothing,
                ..st
            },
        )
    } else if dir == "driver"@ {
        Ok(ReaderView { song: driver_line(st.song, args), section: Section::Nothing, ..st })
    } else if dir == "dpcm"@ {
        match sample_line(st.song, args) {
            Ok(s) => Ok(ReaderView { song: s, section: Section::Nothing, ..st }),
            Err(e) => Err(e),
        }
    } else {
        Ok(ReaderView { warnings: st.warnings.push(unread_warning(n, dir)), ..st })
    }
}

/// What a data row does to the reader.
pub open spec fn data_row(st: ReaderView, line: Seq<char>) -> Result<ReaderView, Fault> {
    match st.section {
        Section::Phrase(p) => match row_line(st.song.phrases[p as int], line) {
            Ok(g) => Ok(
                ReaderView {
                    song: SongView { phrases: st.song.phrases.update(p as int, g), ..st.song },
                    ..st
                },
            ),
            Err(e) => Err(e),
        },
        Section::Chain(c) => match byte_words(
            st.song.chains[c as int].phrases,
            text::words(line),
        ) {
            Some(b) => Ok(
                ReaderView {
                    song: SongView {
                        chains: st.song.chains.update(
                            c as int,
                            ChainView { phrases: b, ..st.song.chains[c as int] },
                        ),
                        ..st.song
                    },
                    ..st
                },
            ),
            None => Err(Fault::ChainPhrase),
        },
        Section::Arrangement => match byte_words(st.song.arrangement, text::words(line)) {
            Some(b) => Ok(ReaderView { song: SongView { arrangement: b, ..st.song }, ..st }),
            None => Err(Fault::ArrangementChain),
        },
        Section::Groove => match groove_words(st.song.groove, st.groove_pos, text::words(line)) {
            Ok((g, pos)) => Ok(
                ReaderView { song: SongView { groove: g, ..st.song }, groove_pos: pos, ..st },
            ),
            Err(e) => Err(e),
        },
        Section::Nothing => Err(Fault::NoSection),
    }
}

/// What the `n`-th line does to the reader.
pub open spec fn line_step(st: ReaderView, n: nat, raw: Seq<char>) -> Result<ReaderView, Fault> {
    let line = text::trim(text::uncomment(raw));
    if line.len() == 0 {
        Ok(st)
    } else if line[0] == '@' {
        let (dir, args) = text::first_word(line.skip(1));
        directive(st, n, dir, args)
    } else {
        data_row(st, line)
    }
}

/// Reads the remaining lines, the first of which is line `n`.
pub open spec fn run_lines(
    st: ReaderView,
    n: nat,
    ls: Seq<Seq<char>>,
) -> Result<ReaderView, VipError>
    decreases ls.len(),
{
    if ls.len() == 0 {
        Ok(st)
    } else {
        match line_step(st, n, ls[0]) {
            Ok(next) => run_lines(next, n + 1, ls.skip(1)),
            Err(fault) => Err(VipError { line: n as usize, fault }),
        }
    }
}

/// Lines are read one by one: what is left is read from where the first
/// line led.
proof fn lemma_run_step(st: ReaderView, n: nat, ls: Seq<Seq<char>>, step: Result<ReaderView, Fault>)
    requires
        ls.len() > 0,
        step == line_step(st, n, ls[0]),
    ensures
        match step {
            Ok(next) => run_lines(st, n, ls) == run_lines(next, n + 1, ls.skip(1)),
            Err(fault) => run_lines(st, n, ls) == Err::<ReaderView, VipError>(
                VipError { line: n as usize, fault },
            ),
        },
{
}

/// The reader between lines.
struct Reader {
    song: Song,
    section: Section,
    groove_pos: usize,
    warnings: Vec<String>,
}

impl View for Reader {
    type V = ReaderView;

    closed spec fn view(&self) -> ReaderView {
        ReaderView {
            song: self.song@,
            section: self.section,
            groove_pos: self.groove_pos,
            warnings: text::texts(self.warnings@),
        }
    }
}

/// The section the reader is in exists.
pub open spec fn section_exists(st: ReaderView) -> bool {
    match st.section {
        Section::Phrase(p) => p < st.song.phrases.len(),
        Section::Chain(c) => c < st.song.chains.len(),
        _ => true,
    }
}

impl Reader {
    fn put_warning(&mut self, w: Vec<char>)
        ensures
            final(self)@ == (ReaderView { warnings: old(self)@.warnings.push(w@), ..old(self)@ }),
    {
        let s: String = text::string_of(w.as_slice());
        proof {
            text::lemma_texts_push(self.warnings@, s);
        }
        self.warnings.push(s);
    }

    fn grow_phrases(&mut self, idx: usize)
        ensures
            final(self)@ == (ReaderView {
                song: SongView {
                    phrases: grown(old(self)@.song.phrases, idx as nat, song::empty_grid()),
                    ..old(self)@.song
                },
                ..old(self)@
            }),
    {
        let ghost start = self.song.phrases@;
        while self.song.phrases.len() <= idx
            invariant
                start.len() <= self.song.phrases@.len(),
                self.song.phrases@.len() <= idx + 1 || self.song.phrases@ == start,
                forall|i: int| 0 <= i < start.len() ==> self.song.phrases@[i] == start[i],
                forall|i: int|
                    start.len() <= i < self.song.phrases@.len()
                        ==> #[trigger] self.song.phrases@[i]@ == song::empty_grid(),
                self@ == (ReaderView {
                    song: SongView { phrases: self@.song.phrases, ..old(self)@.song },
                    ..old(self)@
                }),
            decreases idx + 1 - self.song.phrases@.len(),
        {
            self.song.phrases.push(Phrase::default());
        }
        assert(self@.song.phrases =~= grown(old(self)@.song.phrases, idx as nat, song::empty_grid()));
    }

    fn grow_chains(&mut self, idx: usize)
        ensures
            final(self)@ == (ReaderView {
                song: SongView {
                    chains: grown(old(self)@.song.chains, idx as nat, song::empty_chain()),
                    ..old(self)@.song
                },
                ..old(self)@
            }),
    {
        let ghost start = self.song.chains@;
        while self.song.chains.len() <= idx
            invariant
                start.len() <= self.song.chains@.len(),
                self.song.chains@.len() <= idx + 1 || self.song.chains@ == start,
                forall|i: int| 0 <= i < start.len() ==> self.song.chains@[i] == start[i],
                forall|i: int|
                    start.len() <= i < self.song.chains@.len() ==> #[trigger] self.song.chains@[i]@
                        == song::empty_chain(),
                self@ == (ReaderView {
                    song: SongView { chains: self@.song.chains, ..old(self)@.song },
                    ..old(self)@
                }),
            decreases idx + 1 - self.song.chains@.len(),
        {
            self.song.chains.push(Chain::default());
        }
        assert(self@.song.chains =~= grown(old(self)@.song.chains, idx as nat, song::empty_chain()));
    }

    fn read_directive(&mut self, n: usize, dir: &[char], args: &[char]) -> (r: Result<(), Fault>)
        requires
            section_exists(old(self)@),
        ensures
            match r {
                Ok(()) => directive(old(self)@, n as nat, dir@, args@) == Ok::<ReaderView, Fault>(
                    final(self)@,
                ) && section_exists(final(self)@),
                Err(e) => directive(old(self)@, n as nat, dir@, args@) == Err::<ReaderView, Fault>(
                    e,
                ),
            },
    {
        if text::is_lit(dir, "song") {
            read_song(&mut self.song, args)?;
            self.section = Section::Nothing;
        } else if text::is_lit(dir, "phrase") {
            let ws: Vec<&[char]> = text::split_words(args);
            if ws.len() == 0 {
                return Err(Fault::PhraseIndexMissing);
            }
            assert(text::views(ws@)[0] == ws@[0]@);
            match text::read_uint(ws[0], 16, usize::MAX as u64) {
                None => {
                    return Err(Fault::PhraseIndex);
                },
                Some(idx) => {
                    self.grow_phrases(idx as usize);
                    self.section = Section::Phrase(idx as usize);
                },
            }
        } else if text::is_lit(dir, "chain") {
            let (tok, rest): (&[char], &[char]) = text::split_first_word(args);
            match text::read_uint(tok, 16, usize::MAX as u64) {
                None => {
                    return Err(Fault::ChainIndex);
                },
                Some(idx) => {
                    let idx: usize = idx as usize;
                    let name: Option<String> = match read_chain_name(rest) {
                        Some(s) => Some(text::string_of(s.as_slice())),
                        None => None,
                    };
                    self.grow_chains(idx);
                    let ghost before = self@.song.chains;
                    assert(before.len() == self.song.chains@.len());
                    self.song.chains[idx].name = name;
                    assert(self@.song.chains =~= before.update(
                        idx as int,
                        ChainView {
                            name: chain_name(None, quote::pairs(rest@)),
                            ..before[idx as int]
                        },
                    ));
                    self.section = Section::Chain(idx);
                },
            }
        } else if text::is_lit(dir, "arrangement") || text::is_lit(dir, "arr") {
            match read_arr_loop(self.song.arr_loop, args) {
                Some(at) => {
                    self.song.arr_loop = at;
                },
                None => {
                    return Err(Fault::ArrangementLoop);
                },
            }
            self.section = Section::Arrangement;
        } else if text::is_lit(dir, "groove") {
            match read_swing(args)? {
                Some(s) => {
                    self.song.groove = vip::swing_groove(s);
                    self.section = Section::Nothing;
                },
                None => {
                    self.section = Section::Groove;
                },
            }
            self.groove_pos = 0;
        } else if text::is_lit(dir, "length") || text::is_lit(dir, "len") {
            read_length(&mut self.song, args)?;
            self.section = Section::Nothing;
        } else if text::is_lit(dir, "instr") {
            read_instr(&mut self.song, args)?;
            self.section = Section::Nothing;
        } else if text::is_lit(dir, "meta") {
            read_meta(&mut self.song, args);
            self.section = Section::Nothing;
        } else if text::is_lit(dir, "driver") {
            read_driver(&mut self.song, args);
            self.section = Section::Nothing;
        } else if text::is_lit(dir, "dpcm") {
            read_sample(&mut self.song, args)?;
            self.section = Section::Nothing;
        } else {
            let mut w: Vec<char> = Vec::new();
            text::put_str(&mut w, "line ");
            text::put_dec(&mut w, n as u64);
            if text::is_lit(dir, "scene") || text::is_lit(dir, "bind") || text::is_lit(
                dir,
                "sprite",
            ) {
                text::put_str(&mut w, ": @");
                text::put(&mut w, dir);
                text::put_str(&mut w, " reserved but not implemented — ignored");
            } else {
                text::put_str(&mut w, ": unknown @");
                text::put(&mut w, dir);
                text::put_str(&mut w, " directive — ignored");
            }
            assert(w@ =~= unread_warning(n as nat, dir@));
            self.put_warning(w);
        }
        Ok(())
    }

    fn read_data(&mut self, line: &[char]) -> (r: Result<(), Fault>)
        requires
            section_exists(old(self)@),
        ensures
            match r {
                Ok(()) => data_row(old(self)@, line@) == Ok::<ReaderView, Fault>(final(self)@)
                    && section_exists(final(self)@),
                Err(e) => data_row(old(self)@, line@) == Err::<ReaderView, Fault>(e),
            },
    {
        match self.section {
            Section::Phrase(p) => {
                let ghost before = self@.song.phrases;
                let mut ph: Phrase = self.song.phrases[p];
                assert(before[p as int] == ph@);
                read_row(&mut ph, line)?;
                self.song.phrases[p] = ph;
                assert(self@.song.phrases =~= before.update(p as int, ph@));
            },
            Section::Chain(c) => {
                match read_bytes(line) {
                    None => {
                        assert(byte_words(
                            self@.song.chains[c as int].phrases,
                            text::words(line@),
                        ) is None);
                        return Err(Fault::ChainPhrase);
                    },
                    Some(mut b) => {
                        let ghost before = self@.song.chains;
                        let ghost added = b@;
                        assert(before[c as int] == self.song.chains@[c as int]@);
                        assert(byte_words(before[c as int].phrases, text::words(line@)) == Some(
                            before[c as int].phrases + added,
                        ));
                        self.song.chains[c].phrases.append(&mut b);
                        assert(self@.song.chains =~= before.update(
                            c as int,
                            ChainView {
                                phrases: before[c as int].phrases + added,
                                ..before[c as int]
                            },
                        ));
                    },
                }
            },
            Section::Arrangement => {
                match read_bytes(line) {
                    None => {
                        assert(byte_words(self@.song.arrangement, text::words(line@)) is None);
                        return Err(Fault::ArrangementChain);
                    },
                    Some(mut b) => {
                        assert(byte_words(self@.song.arrangement, text::words(line@)) == Some(
                            self@.song.arrangement + b@,
                        ));
                        self.song.arrangement.append(&mut b);
                    },
                }
            },
            Section::Groove => {
                let ws: Vec<&[char]> = text::split_words(line);
                let ghost all = text::views(ws@);
                let ghost start = self@;
                assert(all.skip(0) =~= all);
                for i in 0..ws.len()
                    invariant
                        all == text::views(ws@),
                        all == text::words(line@),
                        start == old(self)@,
                        start.section == Section::Groove,
                        self@ == (ReaderView {
                            song: SongView { groove: self@.song.groove, ..start.song },
                            groove_pos: self@.groove_pos,
                            ..start
                        }),
                        groove_words(start.song.groove, start.groove_pos, all) == groove_words(
                            self@.song.groove,
                            self@.groove_pos,
                            all.skip(i as int),
                        ),
                {
                    assert(all.skip(i as int)[0] == ws@[i as int]@);
                    assert(all.skip(i as int).skip(1) =~= all.skip(i + 1));
                    if self.groove_pos >= 16 {
                        return Err(Fault::GrooveTooLong);
                    }
                    match text::read_int(ws[i], 32768, 32767) {
                        Some(n) => {
                            self.song.groove[self.groove_pos] = n as i16;
                            self.groove_pos += 1;
                        },
                        None => {
                            return Err(Fault::GrooveValue);
                        },
                    }
                }
                assert(all.skip(ws@.len() as int).len() == 0);
            },
            Section::Nothing => {
                return Err(Fault::NoSection);
            },
        }
        Ok(())
    }

    fn read_line(&mut self, n: usize, raw: &[char]) -> (r: Result<(), Fault>)
        requires
            section_exists(old(self)@),
        ensures
            match r {
                Ok(()) => line_step(old(self)@, n as nat, raw@) == Ok::<ReaderView, Fault>(
                    final(self)@,
                ) && section_exists(final(self)@),
                Err(e) => line_step(old(self)@, n as nat, raw@) == Err::<ReaderView, Fault>(e),
            },
    {
        let line: &[char] = text::trimmed(text::strip_comment(raw));
        if line.len() == 0 {
            return Ok(());
        }
        if line[0] == '@' {
            let (dir, args): (&[char], &[char]) = text::split_first_word(text::tail(line, 1));
            self.read_directive(n, dir, args)
        } else {
            self.read_data(line)
        }
    }
}


// ---------------------------------------------------------------- afterwards

/// Holds of one channel, from step `s` on, that no note sounds into. A hold
/// on the first step continues the phrase before.
pub open spec fn orphans_from(g: Seq<Seq<Cell>>, ch: int, s: nat, sounding: bool) -> nat
    decreases STEPS_PER_PHRASE - s,
{
    if s >= STEPS_PER_PHRASE {
        0
    } else {
        let c = g[s as int][ch];
        if c.note is Some {
            orphans_from(g, ch, s + 1, true)
        } else if c.hold {
            if s == 0 {
                orphans_from(g, ch, s + 1, true)
            } else {
                (if sounding {
                    0nat
                } else {
                    1nat
                }) + orphans_from(g, ch, s + 1, sounding)
            }
        } else {
            orphans_from(g, ch, s + 1, false)
        }
    }
}

/// Orphaned holds in the first `k` channels of a phrase.
pub open spec fn grid_orphans(g: Seq<Seq<Cell>>, k: nat) -> nat
    decreases k,
{
    if k == 0 {
        0
    } else {
        grid_orphans(g, (k - 1) as nat) + orphans_from(g, k - 1, 0, false)
    }
}

/// Orphaned holds in the first `k` phrases.
pub open spec fn song_orphans(phrases: Seq<Seq<Seq<Cell>>>, k: nat) -> nat
    decreases k,
{
    if k == 0 {
        0
    } else {
        song_orphans(phrases, (k - 1) as nat) + grid_orphans(phrases[k - 1], CHANNELS as nat)
    }
}

/// The entries below `n`, in order.
pub open spec fn below(s: Seq<usize>, n: nat) -> Seq<usize>
    decreases s.len(),
{
    if s.len() == 0 {
        s
    } else if s.last() < n {
        below(s.drop_last(), n).push(s.last())
    } else {
        below(s.drop_last(), n)
    }
}

/// The bytes below `n`, in order.
pub open spec fn bytes_below(s: Seq<u8>, n: nat) -> Seq<u8>
    decreases s.len(),
{
    if s.len() == 0 {
        s
    } else if s.last() < n {
        bytes_below(s.drop_last(), n).push(s.last())
    } else {
        bytes_below(s.drop_last(), n)
    }
}

/// The chains with references to missing phrases dropped.
pub open spec fn checked_chains(chains: Seq<ChainView>, n: nat) -> Seq<ChainView> {
    Seq::new(
        chains.len(),
        |i: int| ChainView { phrases: bytes_below(chains[i].phrases, n), ..chains[i] },
    )
}

/// One warning for each of the first `k` chains that lost a reference.
pub open spec fn chain_warnings(chains: Seq<ChainView>, n: nat, k: nat) -> Seq<Seq<char>>
    decreases k,
{
    if k == 0 {
        Seq::empty()
    } else {
        let before = chain_warnings(chains, n, (k - 1) as nat);
        if bytes_below(chains[k - 1].phrases, n).len() != chains[k - 1].phrases.len() {
            before.push(
                "@chain "@ + text::hex2((k - 1) as nat)
                    + " references phrases that do not exist — dropped"@,
            )
        } else {
            before
        }
    }
}

pub open spec fn warn_if(ws: Seq<Seq<char>>, cond: bool, w: Seq<char>) -> Seq<Seq<char>> {
    if cond {
        ws.push(w)
    } else {
        ws
    }
}

/// The song a finished reader stands for, and the warnings. A song has at
/// least one phrase; what refers to missing phrases or chains is dropped;
/// where there is an arrangement, it decides playback.
pub open spec fn finish(st: ReaderView) -> (SongView, Seq<Seq<char>>) {
    let s = st.song;
    let orphans = song_orphans(s.phrases, s.phrases.len());
    let phrases = if s.phrases.len() == 0 {
        seq![song::empty_grid()]
    } else {
        s.phrases
    };
    let n = phrases.len();
    let order = below(s.order, n);
    let arrangement = bytes_below(s.arrangement, s.chains.len());
    let both = arrangement.len() > 0 && order.len() > 0;
    let w1 = warn_if(
        st.warnings,
        orphans > 0,
        text::dec(orphans) + " hold cell(s) (===) have no note above them"@,
    );
    let w2 = warn_if(
        w1,
        order.len() != s.order.len(),
        "@song order references phrases that do not exist — dropped"@,
    );
    let w3 = w2 + chain_warnings(s.chains, n, s.chains.len());
    let w4 = warn_if(
        w3,
        arrangement.len() != s.arrangement.len(),
        "@arrangement references chains that do not exist — dropped"@,
    );
    let w5 = warn_if(w4, both, "@song order= ignored: the @arrangement decides playback"@);
    (
        SongView {
            phrases,
            current_phrase: if s.current_phrase >= n {
                0
            } else {
                s.current_phrase
            },
            order: if both {
                Seq::empty()
            } else {
                order
            },
            loop_pos: if both || s.loop_pos >= order.len() {
                0
            } else {
                s.loop_pos
            },
            chains: checked_chains(s.chains, n),
            arrangement,
            arr_loop: if s.arr_loop >= arrangement.len() {
                0
            } else {
                s.arr_loop
            },
            ..s
        },
        w5,
    )
}

/// The reader before the first line: the default song without phrases.
pub open spec fn fresh_reader() -> ReaderView {
    ReaderView {
        song: SongView { phrases: Seq::empty(), ..song::default_song() },
        section: Section::Nothing,
        groove_pos: 0,
        warnings: Seq::empty(),
    }
}

/// What a `.vip` text stands for: a song with warnings, or the first line
/// that cannot be read.
pub open spec fn parse_vip(t: Seq<char>) -> Result<(SongView, Seq<Seq<char>>), VipError> {
    match run_lines(fresh_reader(), 1, text::lines(t)) {
        Ok(st) => Ok(finish(st)),
        Err(e) => Err(e),
    }
}

proof fn lemma_below(v: Seq<usize>, n: nat)
    ensures
        forall|i: int| 0 <= i < below(v, n).len() ==> #[trigger] below(v, n)[i] < n,
    decreases v.len(),
{
    if v.len() > 0 {
        lemma_below(v.drop_last(), n);
        let b = below(v.drop_last(), n);
        assert forall|i: int| 0 <= i < below(v, n).len() implies #[trigger] below(v, n)[i] < n by {
            if i < b.len() {
                assert(below(v, n)[i] == b[i]);
            }
        }
    }
}

proof fn lemma_bytes_below(v: Seq<u8>, n: nat)
    ensures
        forall|i: int| 0 <= i < bytes_below(v, n).len() ==> #[trigger] bytes_below(v, n)[i] < n,
    decreases v.len(),
{
    if v.len() > 0 {
        lemma_bytes_below(v.drop_last(), n);
        let b = bytes_below(v.drop_last(), n);
        assert forall|i: int| 0 <= i < bytes_below(v, n).len() implies #[trigger] bytes_below(v, n)[i] < n by {
            if i < b.len() {
                assert(bytes_below(v, n)[i] == b[i]);
            }
        }
    }
}

/// Whether all that a song refers to is there: the current phrase, the
/// phrases of its order and its chains, the chains of its arrangement, and
/// where playback goes back to; and whether every channel's length is one that
/// a phrase has room for.
pub open spec fn is_in_range(s: SongView) -> bool {
    &&& s.current_phrase < s.phrases.len()
    &&& forall|i: int| 0 <= i < s.order.len() ==> #[trigger] s.order[i] < s.phrases.len()
    &&& s.loop_pos < s.order.len() || s.loop_pos == 0
    &&& forall|c: int, i: int|
        0 <= c < s.chains.len() && 0 <= i < s.chains[c].phrases.len() ==> (
        #[trigger] s.chains[c].phrases[i]) < s.phrases.len()
    &&& forall|i: int| 0 <= i < s.arrangement.len() ==> #[trigger] s.arrangement[i] < s.chains.len()
    &&& s.arr_loop < s.arrangement.len() || s.arr_loop == 0
    &&& has_lengths(s.channel_length)
}

/// Whether every channel has a length within a phrase.
pub open spec fn has_lengths(len: Seq<u8>) -> bool {
    &&& len.len() == CHANNELS
    &&& forall|c: int| 0 <= c < CHANNELS ==> 1 <= #[trigger] len[c] <= STEPS_PER_PHRASE
}

proof fn lemma_song_words_length(song: SongView, ws: Seq<Seq<char>>)
    ensures
        song_words(song, ws) is Ok ==> song_words(song, ws)->Ok_0.channel_length
            == song.channel_length,
    decreases ws.len(),
{
    if ws.len() > 0 {
        match song_word(song, ws[0]) {
            Ok(s) => {
                lemma_song_words_length(s, ws.skip(1));
            },
            Err(_) => {},
        }
    }
}

proof fn lemma_meta_length(song: SongView, ps: Seq<(Seq<char>, Seq<char>)>)
    ensures
        meta_pairs(song, ps).channel_length == song.channel_length,
    decreases ps.len(),
{
    if ps.len() > 0 {
        let (k, v) = ps[0];
        let next = if k == "title"@ {
            SongView { title: v, ..song }
        } else if k == "artist"@ || k == "composer"@ || k == "author"@ {
            SongView { artist: v, ..song }
        } else if k == "license"@ || k == "copyright"@ {
            SongView { copyright: v, ..song }
        } else if k == "key"@ {
            SongView { key_name: v, ..song }
        } else {
            song
        };
        lemma_meta_length(next, ps.skip(1));
    }
}

proof fn lemma_length_words(len: Seq<u8>, ws: Seq<Seq<char>>)
    requires
        has_lengths(len),
    ensures
        length_words(len, ws) is Ok ==> has_lengths(length_words(len, ws)->Ok_0),
    decreases ws.len(),
{
    if ws.len() > 0 {
        match length_word(len, ws[0]) {
            Ok(l) => {
                lemma_length_words(l, ws.skip(1));
            },
            Err(_) => {},
        }
    }
}

proof fn lemma_directive_length(st: ReaderView, n: nat, dir: Seq<char>, args: Seq<char>)
    requires
        has_lengths(st.song.channel_length),
    ensures
        directive(st, n, dir, args) is Ok ==> has_lengths(
            directive(st, n, dir, args)->Ok_0.song.channel_length,
        ),
{
    lemma_song_words_length(st.song, text::words(args));
    lemma_meta_length(st.song, quote::pairs(args));
    lemma_length_words(st.song.channel_length, text::words(args));
}

proof fn lemma_line_length(st: ReaderView, n: nat, raw: Seq<char>)
    requires
        has_lengths(st.song.channel_length),
    ensures
        line_step(st, n, raw) is Ok ==> has_lengths(line_step(st, n, raw)->Ok_0.song.channel_length),
{
    let line = text::trim(text::uncomment(raw));
    if line.len() > 0 && line[0] == '@' {
        let (dir, args) = text::first_word(line.skip(1));
        lemma_directive_length(st, n, dir, args);
    }
}

proof fn lemma_lines_length(st: ReaderView, n: nat, ls: Seq<Seq<char>>)
    requires
        has_lengths(st.song.channel_length),
    ensures
        run_lines(st, n, ls) is Ok ==> has_lengths(run_lines(st, n, ls)->Ok_0.song.channel_length),
    decreases ls.len(),
{
    if ls.len() > 0 {
        lemma_line_length(st, n, ls[0]);
        let step = line_step(st, n, ls[0]);
        lemma_run_step(st, n, ls, step);
        match step {
            Ok(next) => {
                lemma_lines_length(next, n + 1, ls.skip(1));
            },
            Err(_) => {},
        }
    }
}

/// A song that was read refers to nothing that is missing, has a phrase to
/// show, and has one thing only that decides playback.
pub proof fn law_read_song_is_in_range(t: Seq<char>)
    requires
        parse_vip(t) is Ok,
    ensures
        is_in_range((parse_vip(t)->Ok_0).0),
        (parse_vip(t)->Ok_0).0.arrangement.len() > 0 ==> (parse_vip(t)->Ok_0).0.order.len() == 0,
{
    let st = run_lines(fresh_reader(), 1, text::lines(t))->Ok_0;
    let s = finish(st).0;
    lemma_lines_length(fresh_reader(), 1, text::lines(t));
    lemma_below(st.song.order, s.phrases.len());
    lemma_bytes_below(st.song.arrangement, s.chains.len());
    assert forall|c: int, i: int|
        0 <= c < s.chains.len() && 0 <= i < s.chains[c].phrases.len() implies (
    #[trigger] s.chains[c].phrases[i]) < s.phrases.len() by {
        lemma_bytes_below(st.song.chains[c].phrases, s.phrases.len());
    }
}

proof fn lemma_orphans_bound(g: Seq<Seq<Cell>>, ch: int, s: nat, sounding: bool)
    requires
        s <= STEPS_PER_PHRASE,
    ensures
        orphans_from(g, ch, s, sounding) <= STEPS_PER_PHRASE - s,
    decreases STEPS_PER_PHRASE - s,
{
    if s < STEPS_PER_PHRASE {
        lemma_orphans_bound(g, ch, s + 1, true);
        lemma_orphans_bound(g, ch, s + 1, false);
    }
}

fn count_channel_orphans(p: &Phrase, ch: usize) -> (r: usize)
    requires
        ch < CHANNELS,
    ensures
        r == orphans_from(p@, ch as int, 0, false),
        r <= 16,
{
    let mut count: usize = 0;
    let mut sounding: bool = false;
    let mut s: usize = 0;
    while s < STEPS_PER_PHRASE
        invariant
            s <= STEPS_PER_PHRASE,
            ch < CHANNELS,
            count <= s,
            orphans_from(p@, ch as int, 0, false) == count + orphans_from(
                p@,
                ch as int,
                s as nat,
                sounding,
            ),
        decreases STEPS_PER_PHRASE - s,
    {
        let c: Cell = p.at(s, ch);
        if c.note.is_some() {
            sounding = true;
        } else if c.hold {
            if s == 0 {
                sounding = true;
            } else if !sounding {
                count += 1;
            }
        } else {
            sounding = false;
        }
        s += 1;
    }
    count
}

fn count_orphans(phrases: &Vec<Phrase>) -> (r: u128)
    ensures
        r == song_orphans(song::grids(phrases@), phrases@.len()),
{
    let ghost g = song::grids(phrases@);
    let mut total: u128 = 0;
    let mut i: usize = 0;
    while i < phrases.len()
        invariant
            i <= phrases@.len(),
            g == song::grids(phrases@),
            total == song_orphans(g, i as nat),
            total <= 80 * i,
        decreases phrases@.len() - i,
    {
        assert(g[i as int] == phrases@[i as int]@);
        let mut ch: usize = 0;
        let mut here: u128 = 0;
        while ch < CHANNELS
            invariant
                ch <= CHANNELS,
                i < phrases@.len(),
                here == grid_orphans(phrases@[i as int]@, ch as nat),
                here <= 16 * ch,
            decreases CHANNELS - ch,
        {
            here = here + count_channel_orphans(&phrases[i], ch) as u128;
            ch += 1;
        }
        total = total + here;
        i += 1;
    }
    total
}

fn keep_below(v: &Vec<usize>, n: usize) -> (r: Vec<usize>)
    ensures
        r@ == below(v@, n as nat),
        r@.len() <= v@.len(),
{
    let mut out: Vec<usize> = Vec::new();
    assert(v@.take(0) =~= Seq::<usize>::empty());
    for i in 0..v.len()
        invariant
            out@ == below(v@.take(i as int), n as nat),
            out@.len() <= i,
    {
        assert(v@.take(i + 1).drop_last() =~= v@.take(i as int));
        if v[i] < n {
            out.push(v[i]);
        }
    }
    assert(v@.take(v@.len() as int) =~= v@);
    out
}

fn keep_bytes_below(v: &Vec<u8>, n: usize) -> (r: Vec<u8>)
    ensures
        r@ == bytes_below(v@, n as nat),
        r@.len() <= v@.len(),
{
    let mut out: Vec<u8> = Vec::new();
    assert(v@.take(0) =~= Seq::<u8>::empty());
    for i in 0..v.len()
        invariant
            out@ == bytes_below(v@.take(i as int), n as nat),
            out@.len() <= i,
    {
        assert(v@.take(i + 1).drop_last() =~= v@.take(i as int));
        if (v[i] as usize) < n {
            out.push(v[i]);
        }
    }
    assert(v@.take(v@.len() as int) =~= v@);
    out
}

impl Reader {
    fn put_warning_str(&mut self, w: &str)
        ensures
            final(self)@ == (ReaderView { warnings: old(self)@.warnings.push(w@), ..old(self)@ }),
    {
        let v: Vec<char> = text::chars_of(w);
        self.put_warning(v);
    }

    fn check_chains(&mut self, n: usize)
        ensures
            final(self)@ == (ReaderView {
                song: SongView {
                    chains: checked_chains(old(self)@.song.chains, n as nat),
                    ..old(self)@.song
                },
                warnings: old(self)@.warnings + chain_warnings(
                    old(self)@.song.chains,
                    n as nat,
                    old(self)@.song.chains.len(),
                ),
                ..old(self)@
            }),
    {
        let ghost start = self@;
        let ghost chains = self@.song.chains;
        assert(start.warnings + chain_warnings(chains, n as nat, 0) =~= start.warnings);
        let mut i: usize = 0;
        while i < self.song.chains.len()
            invariant
                i <= chains.len(),
                start == old(self)@,
                chains == start.song.chains,
                self@.song.chains.len() == chains.len(),
                forall|k: int|
                    0 <= k < chains.len() ==> #[trigger] self@.song.chains[k] == (if k < i {
                        checked_chains(chains, n as nat)[k]
                    } else {
                        chains[k]
                    }),
                self@ == (ReaderView {
                    song: SongView { chains: self@.song.chains, ..start.song },
                    warnings: start.warnings + chain_warnings(chains, n as nat, i as nat),
                    ..start
                }),
            decreases chains.len() - i,
        {
            assert(self@.song.chains[i as int] == self.song.chains@[i as int]@);
            let ghost before = self@.song.chains;
            let old_len: usize = self.song.chains[i].phrases.len();
            let kept: Vec<u8> = keep_bytes_below(&self.song.chains[i].phrases, n);
            let lost: bool = kept.len() != old_len;
            self.song.chains[i].phrases = kept;
            assert(self@.song.chains =~= before.update(
                i as int,
                checked_chains(chains, n as nat)[i as int],
            ));
            if lost {
                let mut w: Vec<char> = Vec::new();
                text::put_str(&mut w, "@chain ");
                text::put_hex2(&mut w, i as u64);
                text::put_str(&mut w, " references phrases that do not exist — dropped");
                assert(w@ =~= "@chain "@ + text::hex2(i as nat)
                    + " references phrases that do not exist — dropped"@);
                let ghost ws = self@.warnings;
                self.put_warning(w);
                assert(self@.warnings =~= start.warnings + chain_warnings(
                    chains,
                    n as nat,
                    (i + 1) as nat,
                ));
            }
            i += 1;
        }
        assert(self@.song.chains =~= checked_chains(chains, n as nat));
    }

    fn finish(&mut self)
        ensures
            (final(self)@.song, final(self)@.warnings) == finish(old(self)@),
    {
        let ghost start = self@;
        let orphans: u128 = count_orphans(&self.song.phrases);
        if orphans > 0 {
            let mut w: Vec<char> = text::numeral_of(orphans, 10);
            text::put_str(&mut w, " hold cell(s) (===) have no note above them");
            self.put_warning(w);
        }
        if self.song.phrases.len() == 0 {
            self.song.phrases.push(Phrase::default());
            assert(self@.song.phrases =~= seq![song::empty_grid()]);
        }
        let n: usize = self.song.phrases.len();
        if self.song.current_phrase >= n {
            self.song.current_phrase = 0;
        }
        let before: usize = self.song.order.len();
        self.song.order = keep_below(&self.song.order, n);
        if self.song.order.len() != before {
            self.put_warning_str("@song order references phrases that do not exist — dropped");
        }
        if self.song.loop_pos >= self.song.order.len() {
            self.song.loop_pos = 0;
        }
        self.check_chains(n);
        let nc: usize = self.song.chains.len();
        assert(nc == self@.song.chains.len());
        assert(nc == start.song.chains.len());
        let before: usize = self.song.arrangement.len();
        self.song.arrangement = keep_bytes_below(&self.song.arrangement, nc);
        if self.song.arrangement.len() != before {
            self.put_warning_str("@arrangement references chains that do not exist — dropped");
        }
        if self.song.arr_loop >= self.song.arrangement.len() {
            self.song.arr_loop = 0;
        }
        if self.song.arrangement.len() > 0 && self.song.order.len() > 0 {
            self.put_warning_str("@song order= ignored: the @arrangement decides playback");
            self.song.order.clear();
            self.song.loop_pos = 0;
        }
    }
}

/// Reads a song out of a `.vip` text, with warnings about what was ignored.
pub fn from_vip(t: &str) -> (r: Result<(Song, Vec<String>), VipError>)
    ensures
        match r {
            Ok((song, warnings)) => parse_vip(t@) == Ok::<(SongView, Seq<Seq<char>>), VipError>(
                (song@, text::texts(warnings@)),
            ),
            Err(e) => parse_vip(t@) == Err::<(SongView, Seq<Seq<char>>), VipError>(e),
        },
{
    let chars: Vec<char> = text::chars_of(t);
    let ls: Vec<&[char]> = text::split_lines(chars.as_slice());
    let ghost all = text::views(ls@);
    let mut song: Song = Song::default();
    song.phrases.clear();
    let mut reader: Reader = Reader {
        song,
        section: Section::Nothing,
        groove_pos: 0,
        warnings: Vec::new(),
    };
    assert(reader@.song.phrases =~= Seq::<Seq<Seq<Cell>>>::empty());
    assert(reader@.warnings =~= Seq::<Seq<char>>::empty());
    assert(reader@ =~= fresh_reader());
    assert(all.skip(0) =~= all);
    for i in 0..ls.len()
        invariant
            all == text::views(ls@),
            all == text::lines(t@),
            section_exists(reader@),
            run_lines(fresh_reader(), 1, all) == run_lines(
                reader@,
                (i + 1) as nat,
                all.skip(i as int),
            ),
    {
        assert(all.skip(i as int)[0] == ls@[i as int]@);
        assert(all.skip(i as int).skip(1) =~= all.skip(i + 1));
        let ghost was = reader@;
        let ghost step = line_step(was, (i + 1) as nat, ls@[i as int]@);
        proof {
            lemma_run_step(was, (i + 1) as nat, all.skip(i as int), step);
        }
        match reader.read_line(i + 1, ls[i]) {
            Ok(()) => {},
            Err(fault) => {
                return Err(VipError { line: i + 1, fault });
            },
        }
    }
    assert(all.skip(ls@.len() as int).len() == 0);
    reader.finish();
    Ok((reader.song, reader.warnings))
}

} // verus!
