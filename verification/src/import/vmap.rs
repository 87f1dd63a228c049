//! Reading map files: `@directive key=value` lines, like a style's.

use std::collections::BTreeMap;

use vstd::prelude::*;

use crate::song;
use crate::song::{DpcmRef, DpcmView, Instrument, INSTRUMENTS};
use crate::style::parser;
use crate::text;
use crate::vip;

verus! {

/// Where a track goes and how.
#[derive(Debug)]
pub struct TrackMap {
    /// Part of the track's name, in any case.
    pub midi: String,
    pub ch: Option<usize>,
    pub instr: u8,
    /// `root` keeps the lowest note of a chord, anything else the highest.
    pub flatten: String,
    pub octave: i32,
    pub drums: bool,
    pub vibrato: Option<(u8, u8)>,
    pub vibrato_min_rows: usize,
}

#[verifier::ext_equal]
pub struct TrackMapView {
    pub midi: Seq<char>,
    pub ch: Option<usize>,
    pub instr: u8,
    pub flatten: Seq<char>,
    pub octave: i32,
    pub drums: bool,
    pub vibrato: Option<(u8, u8)>,
    pub vibrato_min_rows: usize,
}

impl View for TrackMap {
    type V = TrackMapView;

    open spec fn view(&self) -> TrackMapView {
        TrackMapView {
            midi: self.midi@,
            ch: self.ch,
            instr: self.instr,
            flatten: self.flatten@,
            octave: self.octave,
            drums: self.drums,
            vibrato: self.vibrato,
            vibrato_min_rows: self.vibrato_min_rows,
        }
    }
}

/// What a drum becomes.
#[derive(Clone, Copy, Debug, PartialEq, Eq, Structural)]
pub enum DrumTarget {
    Dpcm(u8),
    Noi { note: u8, instr: u8 },
}

/// A map file.
#[derive(Debug)]
pub struct ImportMap {
    pub title: String,
    pub artist: String,
    pub arranger: String,
    /// `None` takes the file's first tempo.
    pub bpm: Option<u16>,
    pub transpose: i32,
    pub tracks: Vec<TrackMap>,
    pub drums: BTreeMap<u8, DrumTarget>,
    pub priority_dpcm: Vec<u8>,
    pub priority_noi: Vec<u8>,
    pub fallback: BTreeMap<u8, DrumTarget>,
    pub instruments: Vec<(usize, Instrument)>,
    pub samples: Vec<DpcmRef>,
    pub driver: Option<(String, String)>,
}

#[verifier::ext_equal]
pub struct MapView {
    pub title: Seq<char>,
    pub artist: Seq<char>,
    pub arranger: Seq<char>,
    pub bpm: Option<u16>,
    pub transpose: i32,
    pub tracks: Seq<TrackMapView>,
    pub drums: Map<u8, DrumTarget>,
    pub priority_dpcm: Seq<u8>,
    pub priority_noi: Seq<u8>,
    pub fallback: Map<u8, DrumTarget>,
    pub instruments: Seq<(usize, Instrument)>,
    pub samples: Seq<DpcmView>,
    pub driver: Option<(Seq<char>, Seq<char>)>,
}

pub open spec fn track_map_views(v: Seq<TrackMap>) -> Seq<TrackMapView> {
    v.map_values(|t: TrackMap| t@)
}

impl View for ImportMap {
    type V = MapView;

    open spec fn view(&self) -> MapView {
        MapView {
            title: self.title@,
            artist: self.artist@,
            arranger: self.arranger@,
            bpm: self.bpm,
            transpose: self.transpose,
            tracks: track_map_views(self.tracks@),
            drums: self.drums@,
            priority_dpcm: self.priority_dpcm@,
            priority_noi: self.priority_noi@,
            fallback: self.fallback@,
            instruments: self.instruments@,
            samples: song::sample_views(self.samples@),
            driver: song::driver_view(self.driver),
        }
    }
}

/// What is wrong with a map.
#[derive(Clone, Copy, Debug, PartialEq, Eq, Structural)]
pub enum MapFault {
    NotADirective,
    UnknownDirective,
    BadNumber,
    UnknownChannel,
    NeedsMidi,
    NeedsChannel,
    DrumForm,
    NeedsTarget,
    NoiseForm,
    BadNote,
    InstrumentRange,
    SampleForm,
    NoTracks,
}

/// A fault and the line it is on, counted from 1; line 0 where the map as a
/// whole is at fault.
#[derive(Clone, Copy, Debug, PartialEq, Eq, Structural)]
pub struct MapError {
    pub line: usize,
    pub fault: MapFault,
}

pub open spec fn blank_map() -> MapView {
    MapView {
        title: Seq::empty(),
        artist: Seq::empty(),
        arranger: Seq::empty(),
        bpm: None,
        transpose: 0,
        tracks: Seq::empty(),
        drums: Map::empty(),
        priority_dpcm: Seq::empty(),
        priority_noi: Seq::empty(),
        fallback: Map::empty(),
        instruments: Seq::empty(),
        samples: Seq::empty(),
        driver: None,
    }
}

impl Default for ImportMap {
    fn default() -> (r: ImportMap)
        ensures
            r@ == blank_map(),
    {
        let r: ImportMap = ImportMap {
            title: String::new(),
            artist: String::new(),
            arranger: String::new(),
            bpm: None,
            transpose: 0,
            tracks: Vec::new(),
            drums: BTreeMap::new(),
            priority_dpcm: Vec::new(),
            priority_noi: Vec::new(),
            fallback: BTreeMap::new(),
            instruments: Vec::new(),
            samples: Vec::new(),
            driver: None,
        };
        assert(r@ =~= blank_map());
        r
    }
}

// ---------------------------------------------------------------- values

/// A number up to `max`.
pub open spec fn count_value(v: Seq<char>, base: nat, max: nat) -> Result<nat, MapFault> {
    match text::parse_uint(v, base, max) {
        Some(n) => Ok(n),
        None => Err(MapFault::BadNumber),
    }
}

fn read_count(v: &[char], base: u32, max: u64) -> (r: Result<u64, MapFault>)
    requires
        2 <= base <= 16,
    ensures
        match r {
            Ok(n) => count_value(v@, base as nat, max as nat) == Ok::<nat, MapFault>(n as nat) && n
                <= max,
            Err(e) => count_value(v@, base as nat, max as nat) == Err::<nat, MapFault>(e),
        },
{
    match text::read_uint(v, base, max) {
        Some(n) => Ok(n),
        None => Err(MapFault::BadNumber),
    }
}

pub open spec fn signed_value(v: Seq<char>) -> Result<i32, MapFault> {
    match text::parse_int(v, 0x8000_0000, i32::MAX as nat) {
        Some(n) => Ok(n as i32),
        None => Err(MapFault::BadNumber),
    }
}

fn read_signed(v: &[char]) -> (r: Result<i32, MapFault>)
    ensures
        r == signed_value(v@),
{
    match text::read_int(v, 0x8000_0000, i32::MAX as u32) {
        Some(n) => Ok(n as i32),
        None => Err(MapFault::BadNumber),
    }
}

// ---------------------------------------------------------------- the song

pub open spec fn song_pair(m: MapView, k: Seq<char>, v: Seq<char>) -> Result<MapView, MapFault> {
    if k == "title"@ {
        Ok(MapView { title: v, ..m })
    } else if k == "artist"@ {
        Ok(MapView { artist: v, ..m })
    } else if k == "arranger"@ {
        Ok(MapView { arranger: v, ..m })
    } else if k == "bpm"@ {
        if v == "auto"@ {
            Ok(MapView { bpm: None, ..m })
        } else {
            match count_value(v, 10, u16::MAX as nat) {
                Ok(n) => Ok(MapView { bpm: Some(n as u16), ..m }),
                Err(e) => Err(e),
            }
        }
    } else if k == "transpose"@ {
        match signed_value(v) {
            Ok(n) => Ok(MapView { transpose: n, ..m }),
            Err(e) => Err(e),
        }
    } else {
        Ok(m)
    }
}

pub open spec fn song_step() -> spec_fn(MapView, Seq<char>, Seq<char>) -> Result<MapView, MapFault> {
    |s: MapView, k: Seq<char>, v: Seq<char>| song_pair(s, k, v)
}

fn read_song_pair(m: &mut ImportMap, k: &[char], v: &[char]) -> (r: Result<(), MapFault>)
    ensures
        parser::agrees(r, final(m)@, song_pair(old(m)@, k@, v@)),
{
    if text::is_lit(k, "title") {
        m.title = text::string_of(v);
    } else if text::is_lit(k, "artist") {
        m.artist = text::string_of(v);
    } else if text::is_lit(k, "arranger") {
        m.arranger = text::string_of(v);
    } else if text::is_lit(k, "bpm") {
        if text::is_lit(v, "auto") {
            m.bpm = None;
        } else {
            match read_count(v, 10, u16::MAX as u64) {
                Ok(n) => {
                    m.bpm = Some(n as u16);
                },
                Err(e) => {
                    return Err(e);
                },
            }
        }
    } else if text::is_lit(k, "transpose") {
        match read_signed(v) {
            Ok(n) => {
                m.transpose = n;
            },
            Err(e) => {
                return Err(e);
            },
        }
    }
    Ok(())
}

fn read_song_pairs(st: &mut ImportMap, args: &[char]) -> (r: Result<(), MapFault>)
    ensures
        parser::agrees(
            r,
            final(st)@,
            parser::fold_pairs(song_step(), old(st)@, text::pairs(args@), 0),
        ),
{
    let ps: Vec<(&[char], &[char])> = text::kv(args);
    let ghost all = text::pairs(args@);
    let ghost f = song_step();
    let ghost start = st@;
    let mut i: usize = 0;
    while i < ps.len()
        invariant
            i <= ps@.len(),
            all == text::pairs(args@),
            all == text::pair_views(ps@),
            f == song_step(),
            start == old(st)@,
            parser::fold_pairs(f, start, all, 0) == parser::fold_pairs(f, st@, all, i as nat),
        decreases ps@.len() - i,
    {
        assert(all[i as int] == (ps@[i as int].0@, ps@[i as int].1@));
        match read_song_pair(st, ps[i].0, ps[i].1) {
            Ok(_) => {},
            Err(e) => {
                return Err(e);
            },
        }
        i += 1;
    }
    Ok(())
}

// ---------------------------------------------------------------- tracks

pub open spec fn channel_value(v: Seq<char>) -> Result<usize, MapFault> {
    let u = text::upper(v);
    if u == "PU1"@ {
        Ok(0)
    } else if u == "PU2"@ {
        Ok(1)
    } else if u == "TRI"@ {
        Ok(2)
    } else if u == "NOI"@ {
        Ok(3)
    } else if u == "DPCM"@ {
        Ok(4)
    } else {
        Err(MapFault::UnknownChannel)
    }
}

pub(crate) fn read_channel(v: &[char]) -> (r: Result<usize, MapFault>)
    ensures
        r == channel_value(v@),
{
    let up: Vec<char> = text::upper_of(v);
    let u: &[char] = up.as_slice();
    if text::is_lit(u, "PU1") {
        Ok(0)
    } else if text::is_lit(u, "PU2") {
        Ok(1)
    } else if text::is_lit(u, "TRI") {
        Ok(2)
    } else if text::is_lit(u, "NOI") {
        Ok(3)
    } else if text::is_lit(u, "DPCM") {
        Ok(4)
    } else {
        Err(MapFault::UnknownChannel)
    }
}

pub open spec fn track_pair(t: TrackMapView, k: Seq<char>, v: Seq<char>) -> Result<
    TrackMapView,
    MapFault,
> {
    if k == "midi"@ {
        Ok(TrackMapView { midi: v, ..t })
    } else if k == "ch"@ {
        match channel_value(v) {
            Ok(c) => Ok(TrackMapView { ch: Some(c), ..t }),
            Err(e) => Err(e),
        }
    } else if k == "instr"@ {
        match count_value(v, 16, u8::MAX as nat) {
            Ok(n) => Ok(TrackMapView { instr: n as u8, ..t }),
            Err(e) => Err(e),
        }
    } else if k == "flatten"@ {
        Ok(TrackMapView { flatten: v, ..t })
    } else if k == "octave"@ {
        match signed_value(v) {
            Ok(n) => Ok(TrackMapView { octave: n, ..t }),
            Err(e) => Err(e),
        }
    } else if k == "drums"@ {
        Ok(TrackMapView { drums: v == "1"@ || v == "on"@, ..t })
    } else if k == "vibrato"@ {
        Ok(TrackMapView { vibrato: parser::fx_value(v), ..t })
    } else if k == "vibrato_min_rows"@ {
        match count_value(v, 10, usize::MAX as nat) {
            Ok(n) => Ok(TrackMapView { vibrato_min_rows: n as usize, ..t }),
            Err(e) => Err(e),
        }
    } else {
        Ok(t)
    }
}

pub open spec fn track_step() -> spec_fn(TrackMapView, Seq<char>, Seq<char>) -> Result<TrackMapView, MapFault> {
    |s: TrackMapView, k: Seq<char>, v: Seq<char>| track_pair(s, k, v)
}

fn read_track_pair(t: &mut TrackMap, k: &[char], v: &[char]) -> (r: Result<(), MapFault>)
    ensures
        parser::agrees(r, final(t)@, track_pair(old(t)@, k@, v@)),
{
    if text::is_lit(k, "midi") {
        t.midi = text::string_of(v);
    } else if text::is_lit(k, "ch") {
        match read_channel(v) {
            Ok(c) => {
                t.ch = Some(c);
            },
            Err(e) => {
                return Err(e);
            },
        }
    } else if text::is_lit(k, "instr") {
        match read_count(v, 16, u8::MAX as u64) {
            Ok(n) => {
                t.instr = n as u8;
            },
            Err(e) => {
                return Err(e);
            },
        }
    } else if text::is_lit(k, "flatten") {
        t.flatten = text::string_of(v);
    } else if text::is_lit(k, "octave") {
        match read_signed(v) {
            Ok(n) => {
                t.octave = n;
            },
            Err(e) => {
                return Err(e);
            },
        }
    } else if text::is_lit(k, "drums") {
        t.drums = text::is_lit(v, "1") || text::is_lit(v, "on");
    } else if text::is_lit(k, "vibrato") {
        t.vibrato = parser::read_fx_value(v);
    } else if text::is_lit(k, "vibrato_min_rows") {
        match read_count(v, 10, usize::MAX as u64) {
            Ok(n) => {
                t.vibrato_min_rows = n as usize;
            },
            Err(e) => {
                return Err(e);
            },
        }
    }
    Ok(())
}

fn read_track_pairs(st: &mut TrackMap, args: &[char]) -> (r: Result<(), MapFault>)
    ensures
        parser::agrees(
            r,
            final(st)@,
            parser::fold_pairs(track_step(), old(st)@, text::pairs(args@), 0),
        ),
{
    let ps: Vec<(&[char], &[char])> = text::kv(args);
    let ghost all = text::pairs(args@);
    let ghost f = track_step();
    let ghost start = st@;
    let mut i: usize = 0;
    while i < ps.len()
        invariant
            i <= ps@.len(),
            all == text::pairs(args@),
            all == text::pair_views(ps@),
            f == track_step(),
            start == old(st)@,
            parser::fold_pairs(f, start, all, 0) == parser::fold_pairs(f, st@, all, i as nat),
        decreases ps@.len() - i,
    {
        assert(all[i as int] == (ps@[i as int].0@, ps@[i as int].1@));
        match read_track_pair(st, ps[i].0, ps[i].1) {
            Ok(_) => {},
            Err(e) => {
                return Err(e);
            },
        }
        i += 1;
    }
    Ok(())
}

pub open spec fn blank_track() -> TrackMapView {
    TrackMapView {
        midi: Seq::empty(),
        ch: None,
        instr: 0,
        flatten: "top"@,
        octave: 0,
        drums: false,
        vibrato: None,
        vibrato_min_rows: 2,
    }
}

pub open spec fn track_line(m: MapView, args: Seq<char>) -> Result<MapView, MapFault> {
    match parser::fold_pairs(track_step(), blank_track(), text::pairs(args), 0) {
        Err(e) => Err(e),
        Ok(t) => if t.midi.len() == 0 {
            Err(MapFault::NeedsMidi)
        } else if !t.drums && t.ch is None {
            Err(MapFault::NeedsChannel)
        } else {
            Ok(MapView { tracks: m.tracks.push(t), ..m })
        },
    }
}

fn read_track_line(m: &mut ImportMap, args: &[char]) -> (r: Result<(), MapFault>)
    ensures
        parser::agrees(r, final(m)@, track_line(old(m)@, args@)),
{
    let mut t: TrackMap = TrackMap {
        midi: String::new(),
        ch: None,
        instr: 0,
        flatten: text::string_of(text::chars_of("top").as_slice()),
        octave: 0,
        drums: false,
        vibrato: None,
        vibrato_min_rows: 2,
    };
    assert(t@ =~= blank_track());
    match read_track_pairs(&mut t, args) {
        Ok(_) => {},
        Err(e) => {
            return Err(e);
        },
    }
    if text::chars_of(t.midi.as_str()).len() == 0 {
        return Err(MapFault::NeedsMidi);
    }
    if !t.drums && t.ch.is_none() {
        return Err(MapFault::NeedsChannel);
    }
    let ghost before = m.tracks@;
    let ghost tv = t@;
    m.tracks.push(t);
    assert(track_map_views(m.tracks@) =~= track_map_views(before).push(tv));
    Ok(())
}

// ---------------------------------------------------------------- drums

pub open spec fn noise_target(v: Seq<char>) -> Result<DrumTarget, MapFault> {
    let k = text::char_index(v, '/');
    if k >= v.len() {
        Err(MapFault::NoiseForm)
    } else {
        match vip::parse_note(v.take(k as int)) {
            None => Err(MapFault::BadNote),
            Some(note) => match count_value(v.skip((k + 1) as int), 16, u8::MAX as nat) {
                Ok(i) => Ok(DrumTarget::Noi { note, instr: i as u8 }),
                Err(e) => Err(e),
            },
        }
    }
}

pub(crate) fn read_noise_target(v: &[char]) -> (r: Result<DrumTarget, MapFault>)
    ensures
        r == noise_target(v@),
{
    let k: usize = text::find_char(v, '/');
    if k >= v.len() {
        return Err(MapFault::NoiseForm);
    }
    match vip::read_note(text::head(v, k)) {
        None => Err(MapFault::BadNote),
        Some(note) => match read_count(text::tail(v, k + 1), 16, u8::MAX as u64) {
            Ok(i) => Ok(DrumTarget::Noi { note, instr: i as u8 }),
            Err(e) => Err(e),
        },
    }
}

/// The target a line settles on; the last pair wins.
#[verifier::ext_equal]
pub struct Aim {
    pub target: Option<DrumTarget>,
}

struct Aiming {
    target: Option<DrumTarget>,
}

impl View for Aiming {
    type V = Aim;

    closed spec fn view(&self) -> Aim {
        Aim { target: self.target }
    }
}

pub open spec fn aim_pair(a: Aim, k: Seq<char>, v: Seq<char>) -> Result<Aim, MapFault> {
    if k == "dpcm"@ {
        match count_value(v, 10, u8::MAX as nat) {
            Ok(n) => Ok(Aim { target: Some(DrumTarget::Dpcm(n as u8)) }),
            Err(e) => Err(e),
        }
    } else if k == "noi"@ {
        match noise_target(v) {
            Ok(t) => Ok(Aim { target: Some(t) }),
            Err(e) => Err(e),
        }
    } else {
        Ok(a)
    }
}

pub open spec fn aim_step() -> spec_fn(Aim, Seq<char>, Seq<char>) -> Result<Aim, MapFault> {
    |s: Aim, k: Seq<char>, v: Seq<char>| aim_pair(s, k, v)
}

fn read_aim_pair(a: &mut Aiming, k: &[char], v: &[char]) -> (r: Result<(), MapFault>)
    ensures
        parser::agrees(r, final(a)@, aim_pair(old(a)@, k@, v@)),
{
    if text::is_lit(k, "dpcm") {
        match read_count(v, 10, u8::MAX as u64) {
            Ok(n) => {
                a.target = Some(DrumTarget::Dpcm(n as u8));
            },
            Err(e) => {
                return Err(e);
            },
        }
    } else if text::is_lit(k, "noi") {
        match read_noise_target(v) {
            Ok(t) => {
                a.target = Some(t);
            },
            Err(e) => {
                return Err(e);
            },
        }
    }
    Ok(())
}

fn read_aim_pairs(st: &mut Aiming, args: &[char]) -> (r: Result<(), MapFault>)
    ensures
        parser::agrees(
            r,
            final(st)@,
            parser::fold_pairs(aim_step(), old(st)@, text::pairs(args@), 0),
        ),
{
    let ps: Vec<(&[char], &[char])> = text::kv(args);
    let ghost all = text::pairs(args@);
    let ghost f = aim_step();
    let ghost start = st@;
    let mut i: usize = 0;
    while i < ps.len()
        invariant
            i <= ps@.len(),
            all == text::pairs(args@),
            all == text::pair_views(ps@),
            f == aim_step(),
            start == old(st)@,
            parser::fold_pairs(f, start, all, 0) == parser::fold_pairs(f, st@, all, i as nat),
        decreases ps@.len() - i,
    {
        assert(all[i as int] == (ps@[i as int].0@, ps@[i as int].1@));
        match read_aim_pair(st, ps[i].0, ps[i].1) {
            Ok(_) => {},
            Err(e) => {
                return Err(e);
            },
        }
        i += 1;
    }
    Ok(())
}

/// The map with the keys from `i` on bound to a target.
pub open spec fn with_keys(
    d: Map<u8, DrumTarget>,
    ks: Seq<Seq<char>>,
    t: DrumTarget,
    i: nat,
) -> Result<Map<u8, DrumTarget>, MapFault>
    decreases ks.len() - i,
{
    if i >= ks.len() {
        Ok(d)
    } else {
        match count_value(text::trim(ks[i as int]), 10, u8::MAX as nat) {
            Err(e) => Err(e),
            Ok(k) => with_keys(d.insert(k as u8, t), ks, t, i + 1),
        }
    }
}

/// Binds the keys of a comma-separated list.
fn bind_keys(d: &mut BTreeMap<u8, DrumTarget>, keys: &[char], t: DrumTarget) -> (r: Result<
    (),
    MapFault,
>)
    ensures
        parser::agrees(r, final(d)@, with_keys(old(d)@, text::pieces(keys@, ','), t, 0)),
{
    broadcast use vstd::std_specs::btree::group_btree_axioms;

    let ks: Vec<&[char]> = text::split_on(keys, ',');
    let ghost all = text::pieces(keys@, ',');
    let ghost start = d@;
    let mut i: usize = 0;
    while i < ks.len()
        invariant
            i <= ks@.len(),
            all == text::pieces(keys@, ','),
            all == text::views(ks@),
            start == old(d)@,
            with_keys(start, all, t, 0) == with_keys(d@, all, t, i as nat),
        decreases ks@.len() - i,
    {
        assert(all[i as int] == ks@[i as int]@);
        match read_count(text::trimmed(ks[i]), 10, u8::MAX as u64) {
            Ok(k) => {
                let ghost before = d@;
                d.insert(k as u8, t);
                assert(d@ == before.insert(k as u8, t));
            },
            Err(e) => {
                return Err(e);
            },
        }
        i += 1;
    }
    assert(all.len() == ks@.len());
    Ok(())
}

/// The target of a drum line, and the keys it is for.
pub open spec fn aimed(args: Seq<char>) -> Result<(Seq<char>, DrumTarget), MapFault> {
    match parser::named_args(args) {
        None => Err(MapFault::DrumForm),
        Some((keys, rest)) => match parser::fold_pairs(
            aim_step(),
            Aim { target: None },
            text::pairs(rest),
            0,
        ) {
            Err(e) => Err(e),
            Ok(a) => match a.target {
                None => Err(MapFault::NeedsTarget),
                Some(t) => Ok((keys, t)),
            },
        },
    }
}

fn read_aimed<'a>(args: &'a [char]) -> (r: Result<(&'a [char], DrumTarget), MapFault>)
    ensures
        match r {
            Ok(p) => aimed(args@) == Ok::<(Seq<char>, DrumTarget), MapFault>((p.0@, p.1)),
            Err(e) => aimed(args@) == Err::<(Seq<char>, DrumTarget), MapFault>(e),
        },
{
    match parser::split_name(args) {
        None => Err(MapFault::DrumForm),
        Some((keys, rest)) => {
            let mut a: Aiming = Aiming { target: None };
            assert(a@ =~= Aim { target: None });
            match read_aim_pairs(&mut a, rest) {
                Err(e) => Err(e),
                Ok(_) => match a.target {
                    None => Err(MapFault::NeedsTarget),
                    Some(t) => Ok((keys, t)),
                },
            }
        },
    }
}

pub open spec fn drum_line(m: MapView, args: Seq<char>, fallback: bool) -> Result<MapView, MapFault> {
    match aimed(args) {
        Err(e) => Err(e),
        Ok((keys, t)) => {
            let ks = text::pieces(keys, ',');
            if fallback {
                match with_keys(m.fallback, ks, t, 0) {
                    Ok(d) => Ok(MapView { fallback: d, ..m }),
                    Err(e) => Err(e),
                }
            } else {
                match with_keys(m.drums, ks, t, 0) {
                    Ok(d) => Ok(MapView { drums: d, ..m }),
                    Err(e) => Err(e),
                }
            }
        },
    }
}

fn read_drum_line(m: &mut ImportMap, args: &[char], fallback: bool) -> (r: Result<(), MapFault>)
    ensures
        parser::agrees(r, final(m)@, drum_line(old(m)@, args@, fallback)),
{
    match read_aimed(args) {
        Err(e) => Err(e),
        Ok((keys, t)) => {
            if fallback {
                bind_keys(&mut m.fallback, keys, t)
            } else {
                bind_keys(&mut m.drums, keys, t)
            }
        },
    }
}

/// Bytes from a comma-separated list; the first `k` of its pieces.
pub open spec fn byte_list(ps: Seq<Seq<char>>, k: nat) -> Option<Seq<u8>>
    decreases k,
{
    if k == 0 {
        Some(Seq::empty())
    } else {
        match (
            byte_list(ps, (k - 1) as nat),
            text::parse_uint(text::trim(ps[k - 1]), 10, u8::MAX as nat),
        ) {
            (Some(v), Some(n)) => Some(v.push(n as u8)),
            _ => None,
        }
    }
}

proof fn lemma_byte_list_stop(ps: Seq<Seq<char>>, k: nat, n: nat)
    requires
        k <= n,
        byte_list(ps, k) is None,
    ensures
        byte_list(ps, n) is None,
    decreases n - k,
{
    if k < n {
        lemma_byte_list_stop(ps, k + 1, n);
    }
}

fn read_byte_list(v: &[char]) -> (r: Option<Vec<u8>>)
    ensures
        ({
            let ps = text::pieces(v@, ',');
            match r {
                Some(b) => byte_list(ps, ps.len()) == Some(b@),
                None => byte_list(ps, ps.len()) is None,
            }
        }),
{
    let ps: Vec<&[char]> = text::split_on(v, ',');
    let ghost all = text::pieces(v@, ',');
    assert(all.len() == ps@.len()) by {
        assert(text::views(ps@).len() == ps@.len());
    }
    let mut out: Vec<u8> = Vec::new();
    for i in 0..ps.len()
        invariant
            all == text::views(ps@),
            all == text::pieces(v@, ','),
            all.len() == ps@.len(),
            byte_list(all, i as nat) == Some(out@),
    {
        assert(all[i as int] == ps@[i as int]@);
        match text::read_uint(text::trimmed(ps[i]), 10, u8::MAX as u64) {
            Some(n) => {
                out.push(n as u8);
            },
            None => {
                proof {
                    lemma_byte_list_stop(all, (i + 1) as nat, all.len());
                }
                return None;
            },
        }
    }
    Some(out)
}

pub open spec fn priority_pair(m: MapView, k: Seq<char>, v: Seq<char>) -> Result<
    MapView,
    MapFault,
> {
    let ps = text::pieces(v, ',');
    match byte_list(ps, ps.len()) {
        None => Err(MapFault::BadNumber),
        Some(b) => if k == "dpcm"@ {
            Ok(MapView { priority_dpcm: b, ..m })
        } else if k == "noi"@ {
            Ok(MapView { priority_noi: b, ..m })
        } else {
            Ok(m)
        },
    }
}

pub open spec fn priority_step() -> spec_fn(MapView, Seq<char>, Seq<char>) -> Result<MapView, MapFault> {
    |s: MapView, k: Seq<char>, v: Seq<char>| priority_pair(s, k, v)
}

fn read_priority_pair(m: &mut ImportMap, k: &[char], v: &[char]) -> (r: Result<(), MapFault>)
    ensures
        parser::agrees(r, final(m)@, priority_pair(old(m)@, k@, v@)),
{
    match read_byte_list(v) {
        None => Err(MapFault::BadNumber),
        Some(b) => {
            if text::is_lit(k, "dpcm") {
                m.priority_dpcm = b;
            } else if text::is_lit(k, "noi") {
                m.priority_noi = b;
            }
            Ok(())
        },
    }
}

fn read_priority_pairs(st: &mut ImportMap, args: &[char]) -> (r: Result<(), MapFault>)
    ensures
        parser::agrees(
            r,
            final(st)@,
            parser::fold_pairs(priority_step(), old(st)@, text::pairs(args@), 0),
        ),
{
    let ps: Vec<(&[char], &[char])> = text::kv(args);
    let ghost all = text::pairs(args@);
    let ghost f = priority_step();
    let ghost start = st@;
    let mut i: usize = 0;
    while i < ps.len()
        invariant
            i <= ps@.len(),
            all == text::pairs(args@),
            all == text::pair_views(ps@),
            f == priority_step(),
            start == old(st)@,
            parser::fold_pairs(f, start, all, 0) == parser::fold_pairs(f, st@, all, i as nat),
        decreases ps@.len() - i,
    {
        assert(all[i as int] == (ps@[i as int].0@, ps@[i as int].1@));
        match read_priority_pair(st, ps[i].0, ps[i].1) {
            Ok(_) => {},
            Err(e) => {
                return Err(e);
            },
        }
        i += 1;
    }
    Ok(())
}

// ---------------------------------------------------------------- instruments

/// An instrument while its line is read.
#[verifier::ext_equal]
pub struct Envelope {
    pub inst: Instrument,
}

struct EnvelopeDraft {
    inst: Instrument,
}

impl View for EnvelopeDraft {
    type V = Envelope;

    closed spec fn view(&self) -> Envelope {
        Envelope { inst: self.inst }
    }
}

pub open spec fn level_value(v: Seq<char>) -> Result<i32, MapFault> {
    match text::parse_milli(v) {
        Some(n) => Ok(n as i32),
        None => Err(MapFault::BadNumber),
    }
}

pub open spec fn envelope_pair(d: Envelope, k: Seq<char>, v: Seq<char>) -> Result<
    Envelope,
    MapFault,
> {
    if k == "a"@ || k == "d"@ || k == "r"@ {
        match count_value(v, 10, u16::MAX as nat) {
            Err(e) => Err(e),
            Ok(n) => Ok(
                Envelope {
                    inst: if k == "a"@ {
                        Instrument { attack_ms: n as u16, ..d.inst }
                    } else if k == "d"@ {
                        Instrument { decay_ms: n as u16, ..d.inst }
                    } else {
                        Instrument { release_ms: n as u16, ..d.inst }
                    },
                },
            ),
        }
    } else if k == "s"@ || k == "duty"@ || k == "vol"@ {
        match level_value(v) {
            Err(e) => Err(e),
            Ok(n) => Ok(
                Envelope {
                    inst: if k == "s"@ {
                        Instrument { sustain: n, ..d.inst }
                    } else if k == "duty"@ {
                        Instrument { duty: n, ..d.inst }
                    } else {
                        Instrument { volume: n, ..d.inst }
                    },
                },
            ),
        }
    } else {
        Ok(d)
    }
}

pub open spec fn envelope_step() -> spec_fn(Envelope, Seq<char>, Seq<char>) -> Result<Envelope, MapFault> {
    |s: Envelope, k: Seq<char>, v: Seq<char>| envelope_pair(s, k, v)
}

fn read_envelope_pair(d: &mut EnvelopeDraft, k: &[char], v: &[char]) -> (r: Result<(), MapFault>)
    ensures
        parser::agrees(r, final(d)@, envelope_pair(old(d)@, k@, v@)),
{
    let a: bool = text::is_lit(k, "a");
    let dec: bool = text::is_lit(k, "d");
    let s: bool = text::is_lit(k, "s");
    let duty: bool = text::is_lit(k, "duty");
    if a || dec || text::is_lit(k, "r") {
        match read_count(v, 10, u16::MAX as u64) {
            Err(e) => {
                return Err(e);
            },
            Ok(n) => {
                if a {
                    d.inst.attack_ms = n as u16;
                } else if dec {
                    d.inst.decay_ms = n as u16;
                } else {
                    d.inst.release_ms = n as u16;
                }
            },
        }
    } else if s || duty || text::is_lit(k, "vol") {
        match text::read_milli(v) {
            None => {
                return Err(MapFault::BadNumber);
            },
            Some(n) => {
                if s {
                    d.inst.sustain = n;
                } else if duty {
                    d.inst.duty = n;
                } else {
                    d.inst.volume = n;
                }
            },
        }
    }
    Ok(())
}

fn read_envelope_pairs(st: &mut EnvelopeDraft, args: &[char]) -> (r: Result<(), MapFault>)
    ensures
        parser::agrees(
            r,
            final(st)@,
            parser::fold_pairs(envelope_step(), old(st)@, text::pairs(args@), 0),
        ),
{
    let ps: Vec<(&[char], &[char])> = text::kv(args);
    let ghost all = text::pairs(args@);
    let ghost f = envelope_step();
    let ghost start = st@;
    let mut i: usize = 0;
    while i < ps.len()
        invariant
            i <= ps@.len(),
            all == text::pairs(args@),
            all == text::pair_views(ps@),
            f == envelope_step(),
            start == old(st)@,
            parser::fold_pairs(f, start, all, 0) == parser::fold_pairs(f, st@, all, i as nat),
        decreases ps@.len() - i,
    {
        assert(all[i as int] == (ps@[i as int].0@, ps@[i as int].1@));
        match read_envelope_pair(st, ps[i].0, ps[i].1) {
            Ok(_) => {},
            Err(e) => {
                return Err(e);
            },
        }
        i += 1;
    }
    Ok(())
}

pub open spec fn instr_line(m: MapView, args: Seq<char>) -> Result<MapView, MapFault> {
    let (slot, rest) = match parser::named_args(args) {
        Some(p) => p,
        None => (args, Seq::empty()),
    };
    match count_value(slot, 16, usize::MAX as nat) {
        Err(e) => Err(e),
        Ok(idx) => if idx >= INSTRUMENTS {
            Err(MapFault::InstrumentRange)
        } else {
            match parser::fold_pairs(
                envelope_step(),
                Envelope { inst: song::default_instrument() },
                text::pairs(rest),
                0,
            ) {
                Err(e) => Err(e),
                Ok(d) => Ok(
                    MapView { instruments: m.instruments.push((idx as usize, d.inst)), ..m },
                ),
            }
        },
    }
}

fn read_instr_line(m: &mut ImportMap, args: &[char]) -> (r: Result<(), MapFault>)
    ensures
        parser::agrees(r, final(m)@, instr_line(old(m)@, args@)),
{
    let (slot, rest): (&[char], &[char]) = match parser::split_name(args) {
        Some(p) => p,
        None => (args, text::head(args, 0)),
    };
    assert(rest@ == (match parser::named_args(args@) {
        Some(p) => p.1,
        None => Seq::empty(),
    }));
    let idx: usize = match read_count(slot, 16, usize::MAX as u64) {
        Ok(n) => n as usize,
        Err(e) => {
            return Err(e);
        },
    };
    if idx >= INSTRUMENTS {
        return Err(MapFault::InstrumentRange);
    }
    let mut d: EnvelopeDraft = EnvelopeDraft { inst: Instrument::default() };
    match read_envelope_pairs(&mut d, rest) {
        Ok(_) => {},
        Err(e) => {
            return Err(e);
        },
    }
    m.instruments.push((idx, d.inst));
    Ok(())
}

// ---------------------------------------------------------------- samples and driver

pub open spec fn sample_pair(s: DpcmView, k: Seq<char>, v: Seq<char>) -> Result<
    DpcmView,
    MapFault,
> {
    if k == "name"@ {
        Ok(DpcmView { name: v, ..s })
    } else if k == "path"@ {
        Ok(DpcmView { path: v, ..s })
    } else if k == "rate"@ {
        match count_value(v, 10, u8::MAX as nat) {
            Ok(n) => Ok(DpcmView { rate: n as u8, ..s }),
            Err(e) => Err(e),
        }
    } else {
        Ok(s)
    }
}

pub open spec fn sample_step() -> spec_fn(DpcmView, Seq<char>, Seq<char>) -> Result<DpcmView, MapFault> {
    |s: DpcmView, k: Seq<char>, v: Seq<char>| sample_pair(s, k, v)
}

fn read_sample_pair(s: &mut DpcmRef, k: &[char], v: &[char]) -> (r: Result<(), MapFault>)
    ensures
        parser::agrees(r, final(s)@, sample_pair(old(s)@, k@, v@)),
{
    if text::is_lit(k, "name") {
        s.name = text::string_of(v);
    } else if text::is_lit(k, "path") {
        s.path = text::string_of(v);
    } else if text::is_lit(k, "rate") {
        match read_count(v, 10, u8::MAX as u64) {
            Ok(n) => {
                s.rate = n as u8;
            },
            Err(e) => {
                return Err(e);
            },
        }
    }
    Ok(())
}

fn read_sample_pairs(st: &mut DpcmRef, args: &[char]) -> (r: Result<(), MapFault>)
    ensures
        parser::agrees(
            r,
            final(st)@,
            parser::fold_pairs(sample_step(), old(st)@, text::pairs(args@), 0),
        ),
{
    let ps: Vec<(&[char], &[char])> = text::kv(args);
    let ghost all = text::pairs(args@);
    let ghost f = sample_step();
    let ghost start = st@;
    let mut i: usize = 0;
    while i < ps.len()
        invariant
            i <= ps@.len(),
            all == text::pairs(args@),
            all == text::pair_views(ps@),
            f == sample_step(),
            start == old(st)@,
            parser::fold_pairs(f, start, all, 0) == parser::fold_pairs(f, st@, all, i as nat),
        decreases ps@.len() - i,
    {
        assert(all[i as int] == (ps@[i as int].0@, ps@[i as int].1@));
        match read_sample_pair(st, ps[i].0, ps[i].1) {
            Ok(_) => {},
            Err(e) => {
                return Err(e);
            },
        }
        i += 1;
    }
    Ok(())
}

/// The bank with a sample in a slot; slots before it that do not exist yet
/// are left blank.
pub open spec fn banked(v: Seq<DpcmView>, idx: nat, s: DpcmView) -> Seq<DpcmView> {
    Seq::new(
        if v.len() > idx {
            v.len()
        } else {
            idx + 1
        },
        |i: int|
            if i == idx {
                s
            } else if i < v.len() {
                v[i]
            } else {
                song::blank_sample()
            },
    )
}

pub open spec fn dpcm_line(m: MapView, args: Seq<char>) -> Result<MapView, MapFault> {
    match parser::named_args(args) {
        None => Err(MapFault::SampleForm),
        Some((slot, rest)) => match count_value(slot, 16, usize::MAX as nat) {
            Err(e) => Err(e),
            Ok(idx) => match parser::fold_pairs(
                sample_step(),
                DpcmView { name: "sample"@ + text::hex2(idx), ..song::blank_sample() },
                text::pairs(rest),
                0,
            ) {
                Err(e) => Err(e),
                Ok(s) => Ok(MapView { samples: banked(m.samples, idx, s), ..m }),
            },
        },
    }
}

fn read_dpcm_line(m: &mut ImportMap, args: &[char]) -> (r: Result<(), MapFault>)
    ensures
        parser::agrees(r, final(m)@, dpcm_line(old(m)@, args@)),
{
    let (slot, rest): (&[char], &[char]) = match parser::split_name(args) {
        Some(p) => p,
        None => {
            return Err(MapFault::SampleForm);
        },
    };
    let idx: usize = match read_count(slot, 16, usize::MAX as u64) {
        Ok(n) => n as usize,
        Err(e) => {
            return Err(e);
        },
    };
    let mut name: Vec<char> = text::chars_of("sample");
    text::put_hex2(&mut name, idx as u64);
    let mut s: DpcmRef = DpcmRef {
        name: text::string_of(name.as_slice()),
        path: String::new(),
        rate: 15,
    };
    assert(s@ =~= DpcmView { name: "sample"@ + text::hex2(idx as nat), ..song::blank_sample() });
    match read_sample_pairs(&mut s, rest) {
        Ok(_) => {},
        Err(e) => {
            return Err(e);
        },
    }
    let ghost first = song::sample_views(m.samples@);
    let ghost rest_of = m@;
    assert(first.len() == m.samples@.len());
    while m.samples.len() <= idx
        invariant
            first.len() <= m.samples@.len(),
            m.samples@.len() <= (if first.len() > idx {
                first.len() as int
            } else {
                idx + 1
            }),
            forall|i: int|
                0 <= i < m.samples@.len() ==> (#[trigger] m.samples@[i])@ == (if i < first.len() {
                    first[i]
                } else {
                    song::blank_sample()
                }),
            m@ == (MapView { samples: song::sample_views(m.samples@), ..rest_of }),
        decreases idx + 1 - m.samples@.len(),
    {
        m.samples.push(DpcmRef::blank());
    }
    let ghost sv = s@;
    m.samples[idx] = s;
    assert(song::sample_views(m.samples@) =~= banked(first, idx as nat, sv));
    Ok(())
}

/// The driver's two paths while its line is read.
#[verifier::ext_equal]
pub struct Paths {
    pub bin: Option<Seq<char>>,
    pub sym: Option<Seq<char>>,
}

struct PathsDraft {
    bin: Option<String>,
    sym: Option<String>,
}

pub open spec fn some_text(s: Option<String>) -> Option<Seq<char>> {
    match s {
        Some(t) => Some(t@),
        None => None,
    }
}

impl View for PathsDraft {
    type V = Paths;

    closed spec fn view(&self) -> Paths {
        Paths { bin: some_text(self.bin), sym: some_text(self.sym) }
    }
}

pub open spec fn path_pair(p: Paths, k: Seq<char>, v: Seq<char>) -> Result<Paths, MapFault> {
    if k == "bin"@ {
        Ok(Paths { bin: Some(v), ..p })
    } else if k == "sym"@ {
        Ok(Paths { sym: Some(v), ..p })
    } else {
        Ok(p)
    }
}

pub open spec fn path_step() -> spec_fn(Paths, Seq<char>, Seq<char>) -> Result<Paths, MapFault> {
    |s: Paths, k: Seq<char>, v: Seq<char>| path_pair(s, k, v)
}

fn read_path_pair(p: &mut PathsDraft, k: &[char], v: &[char]) -> (r: Result<(), MapFault>)
    ensures
        parser::agrees(r, final(p)@, path_pair(old(p)@, k@, v@)),
{
    if text::is_lit(k, "bin") {
        p.bin = Some(text::string_of(v));
    } else if text::is_lit(k, "sym") {
        p.sym = Some(text::string_of(v));
    }
    Ok(())
}

fn read_path_pairs(st: &mut PathsDraft, args: &[char]) -> (r: Result<(), MapFault>)
    ensures
        parser::agrees(
            r,
            final(st)@,
            parser::fold_pairs(path_step(), old(st)@, text::pairs(args@), 0),
        ),
{
    let ps: Vec<(&[char], &[char])> = text::kv(args);
    let ghost all = text::pairs(args@);
    let ghost f = path_step();
    let ghost start = st@;
    let mut i: usize = 0;
    while i < ps.len()
        invariant
            i <= ps@.len(),
            all == text::pairs(args@),
            all == text::pair_views(ps@),
            f == path_step(),
            start == old(st)@,
            parser::fold_pairs(f, start, all, 0) == parser::fold_pairs(f, st@, all, i as nat),
        decreases ps@.len() - i,
    {
        assert(all[i as int] == (ps@[i as int].0@, ps@[i as int].1@));
        match read_path_pair(st, ps[i].0, ps[i].1) {
            Ok(_) => {},
            Err(e) => {
                return Err(e);
            },
        }
        i += 1;
    }
    Ok(())
}

/// The driver: its binary, and its symbols or else the file beside it.
pub open spec fn driver_line(m: MapView, args: Seq<char>) -> Result<MapView, MapFault> {
    match parser::fold_pairs(path_step(), Paths { bin: None, sym: None }, text::pairs(args), 0) {
        Err(e) => Err(e),
        Ok(p) => match p.bin {
            None => Ok(m),
            Some(b) => Ok(
                MapView {
                    driver: Some(
                        (
                            b,
                            match p.sym {
                                Some(s) => s,
                                None => text::with_extension(b, "sym"@),
                            },
                        ),
                    ),
                    ..m
                },
            ),
        },
    }
}

fn read_driver_line(m: &mut ImportMap, args: &[char]) -> (r: Result<(), MapFault>)
    ensures
        parser::agrees(r, final(m)@, driver_line(old(m)@, args@)),
{
    let mut p: PathsDraft = PathsDraft { bin: None, sym: None };
    assert(p@ =~= Paths { bin: None, sym: None });
    match read_path_pairs(&mut p, args) {
        Ok(_) => {},
        Err(e) => {
            return Err(e);
        },
    }
    if let Some(b) = p.bin {
        let s: String = match p.sym {
            Some(s) => s,
            None => {
                let chars: Vec<char> = text::chars_of(b.as_str());
                text::string_of(text::extended(chars.as_slice(), "sym").as_slice())
            },
        };
        m.driver = Some((b, s));
    }
    Ok(())
}

// ---------------------------------------------------------------- lines

pub open spec fn directive(m: MapView, dir: Seq<char>, args: Seq<char>) -> Result<
    MapView,
    MapFault,
> {
    if dir == "song"@ {
        parser::fold_pairs(song_step(), m, text::pairs(args), 0)
    } else if dir == "track"@ {
        track_line(m, args)
    } else if dir == "drum"@ {
        drum_line(m, args, false)
    } else if dir == "fallback"@ {
        drum_line(m, args, true)
    } else if dir == "priority"@ {
        parser::fold_pairs(priority_step(), m, text::pairs(args), 0)
    } else if dir == "instr"@ {
        instr_line(m, args)
    } else if dir == "dpcm"@ {
        dpcm_line(m, args)
    } else if dir == "driver"@ {
        driver_line(m, args)
    } else {
        Err(MapFault::UnknownDirective)
    }
}

fn read_directive(m: &mut ImportMap, dir: &[char], args: &[char]) -> (r: Result<(), MapFault>)
    ensures
        parser::agrees(r, final(m)@, directive(old(m)@, dir@, args@)),
{
    if text::is_lit(dir, "song") {
        read_song_pairs(m, args)
    } else if text::is_lit(dir, "track") {
        read_track_line(m, args)
    } else if text::is_lit(dir, "drum") {
        read_drum_line(m, args, false)
    } else if text::is_lit(dir, "fallback") {
        read_drum_line(m, args, true)
    } else if text::is_lit(dir, "priority") {
        read_priority_pairs(m, args)
    } else if text::is_lit(dir, "instr") {
        read_instr_line(m, args)
    } else if text::is_lit(dir, "dpcm") {
        read_dpcm_line(m, args)
    } else if text::is_lit(dir, "driver") {
        read_driver_line(m, args)
    } else {
        Err(MapFault::UnknownDirective)
    }
}

/// What a line makes of the map. Comments and blank lines change nothing.
pub open spec fn line_step(m: MapView, raw: Seq<char>) -> Result<MapView, MapFault> {
    let line = text::trim(text::uncomment(raw));
    if line.len() == 0 {
        Ok(m)
    } else if line[0] != '@' {
        Err(MapFault::NotADirective)
    } else {
        let body = line.skip(1);
        match parser::named_args(body) {
            Some((dir, args)) => directive(m, dir, args),
            None => directive(m, body, Seq::empty()),
        }
    }
}

fn read_line(m: &mut ImportMap, raw: &[char]) -> (r: Result<(), MapFault>)
    ensures
        parser::agrees(r, final(m)@, line_step(old(m)@, raw@)),
{
    let line: &[char] = text::trimmed(text::strip_comment(raw));
    if line.len() == 0 {
        return Ok(());
    }
    if line[0] != '@' {
        return Err(MapFault::NotADirective);
    }
    let body: &[char] = text::tail(line, 1);
    match parser::split_name(body) {
        Some((dir, args)) => read_directive(m, dir, args),
        None => {
            let none: &[char] = text::head(body, 0);
            assert(none@ =~= Seq::empty());
            read_directive(m, body, none)
        },
    }
}

/// The map after the lines from `i` on.
pub open spec fn run_lines(m: MapView, ls: Seq<Seq<char>>, i: nat) -> Result<MapView, MapError>
    decreases ls.len() - i,
{
    if i >= ls.len() {
        Ok(m)
    } else {
        match line_step(m, ls[i as int]) {
            Ok(t) => run_lines(t, ls, i + 1),
            Err(fault) => Err(MapError { line: (i + 1) as usize, fault }),
        }
    }
}

/// The map that a text describes.
pub open spec fn map_of(s: Seq<char>) -> Result<MapView, MapError> {
    match run_lines(blank_map(), text::lines(s), 0) {
        Err(e) => Err(e),
        Ok(m) => if m.tracks.len() == 0 {
            Err(MapError { line: 0, fault: MapFault::NoTracks })
        } else {
            Ok(m)
        },
    }
}

/// Reads a map file.
pub fn parse_map(source: &str) -> (r: Result<ImportMap, MapError>)
    ensures
        match r {
            Ok(m) => map_of(source@) == Ok::<MapView, MapError>(m@),
            Err(e) => map_of(source@) == Err::<MapView, MapError>(e),
        },
{
    let chars: Vec<char> = text::chars_of(source);
    let ls: Vec<&[char]> = text::split_lines(chars.as_slice());
    let ghost all = text::lines(source@);
    let mut m: ImportMap = ImportMap::default();
    let mut i: usize = 0;
    while i < ls.len()
        invariant
            i <= ls@.len(),
            all == text::lines(source@),
            all == text::views(ls@),
            run_lines(blank_map(), all, 0) == run_lines(m@, all, i as nat),
        decreases ls@.len() - i,
    {
        assert(all[i as int] == ls@[i as int]@);
        match read_line(&mut m, ls[i]) {
            Ok(_) => {},
            Err(fault) => {
                return Err(MapError { line: i + 1, fault });
            },
        }
        i += 1;
    }
    assert(all.len() == ls@.len());
    assert(m@.tracks.len() == m.tracks@.len());
    if m.tracks.len() == 0 {
        return Err(MapError { line: 0, fault: MapFault::NoTracks });
    }
    Ok(m)
}

// ---------------------------------------------------------------- what words set

/// The words of a map line tell themselves apart by length and letters.
proof fn lemma_words()
    ensures
        "midi"@.len() == 4 && "ch"@.len() == 2 && "flatten"@.len() == 7 && "octave"@.len() == 6,
        "instr"@.len() == 5 && "instr"@[0] == 'i' && "drums"@.len() == 5 && "drums"@[0] == 'd',
        "vibrato"@.len() == 7 && "vibrato"@[0] == 'v' && "flatten"@[0] == 'f',
        "vibrato_min_rows"@.len() == 16,
        "title"@.len() == 5 && "artist"@.len() == 6 && "arranger"@.len() == 8,
        "bpm"@.len() == 3 && "transpose"@.len() == 9,
        "a"@.len() == 1 && "a"@[0] == 'a' && "d"@.len() == 1 && "d"@[0] == 'd',
        "r"@.len() == 1 && "r"@[0] == 'r' && "s"@.len() == 1 && "s"@[0] == 's',
        "duty"@.len() == 4 && "vol"@.len() == 3,
{
    reveal_strlit("midi");
    reveal_strlit("ch");
    reveal_strlit("flatten");
    reveal_strlit("octave");
    reveal_strlit("instr");
    reveal_strlit("drums");
    reveal_strlit("vibrato");
    reveal_strlit("vibrato_min_rows");
    reveal_strlit("title");
    reveal_strlit("artist");
    reveal_strlit("arranger");
    reveal_strlit("bpm");
    reveal_strlit("transpose");
    reveal_strlit("a");
    reveal_strlit("d");
    reveal_strlit("r");
    reveal_strlit("s");
    reveal_strlit("duty");
    reveal_strlit("vol");
}

/// Each word of a track's line sets what it names, to the value behind it, and
/// leaves everything else.
pub proof fn law_track_words_set_what_they_name(t: TrackMapView, k: Seq<char>, v: Seq<char>)
    requires
        track_pair(t, k, v) is Ok,
    ensures
        ({
            let u = track_pair(t, k, v)->Ok_0;
            &&& k == "midi"@ ==> u.midi == v
            &&& k != "midi"@ ==> u.midi == t.midi
            &&& k == "ch"@ ==> channel_value(v) is Ok && u.ch == Some(channel_value(v)->Ok_0)
            &&& k != "ch"@ ==> u.ch == t.ch
            &&& k == "instr"@ ==> text::parse_uint(v, 16, 255) == Some(u.instr as nat)
            &&& k != "instr"@ ==> u.instr == t.instr
            &&& k == "flatten"@ ==> u.flatten == v
            &&& k != "flatten"@ ==> u.flatten == t.flatten
            &&& k == "octave"@ ==> signed_value(v) is Ok && u.octave == signed_value(v)->Ok_0
            &&& k != "octave"@ ==> u.octave == t.octave
            &&& k == "drums"@ ==> (u.drums <==> v == "1"@ || v == "on"@)
            &&& k != "drums"@ ==> u.drums == t.drums
            &&& k == "vibrato"@ ==> u.vibrato == parser::fx_value(v)
            &&& k != "vibrato"@ ==> u.vibrato == t.vibrato
            &&& k == "vibrato_min_rows"@ ==> text::parse_uint(v, 10, usize::MAX as nat) == Some(
                u.vibrato_min_rows as nat,
            )
            &&& k != "vibrato_min_rows"@ ==> u.vibrato_min_rows == t.vibrato_min_rows
        }),
{
    lemma_words();
    lemma_count(v, 16, u8::MAX as nat);
    lemma_count(v, 10, usize::MAX as nat);
}

proof fn lemma_count(v: Seq<char>, base: nat, max: nat)
    ensures
        count_value(v, base, max) matches Ok(n) ==> text::parse_uint(v, base, max) == Some(n) && n
            <= max,
{
}

/// Each word of the song's line sets what it names and leaves everything else;
/// a tempo of `auto` is the file's own.
pub proof fn law_song_words_set_what_they_name(m: MapView, k: Seq<char>, v: Seq<char>)
    requires
        song_pair(m, k, v) is Ok,
    ensures
        ({
            let u = song_pair(m, k, v)->Ok_0;
            &&& k == "title"@ ==> u.title == v
            &&& k != "title"@ ==> u.title == m.title
            &&& k == "artist"@ ==> u.artist == v
            &&& k != "artist"@ ==> u.artist == m.artist
            &&& k == "arranger"@ ==> u.arranger == v
            &&& k != "arranger"@ ==> u.arranger == m.arranger
            &&& k == "bpm"@ && v == "auto"@ ==> u.bpm is None
            &&& k == "bpm"@ && v != "auto"@ ==> u.bpm is Some && text::parse_uint(
                v,
                10,
                u16::MAX as nat,
            ) == Some(u.bpm->0 as nat)
            &&& k != "bpm"@ ==> u.bpm == m.bpm
            &&& k == "transpose"@ ==> signed_value(v) is Ok && u.transpose == signed_value(v)->Ok_0
            &&& k != "transpose"@ ==> u.transpose == m.transpose
            &&& u.tracks == m.tracks && u.drums == m.drums && u.fallback == m.fallback
        }),
{
    lemma_words();
    lemma_count(v, 10, u16::MAX as nat);
}

/// Each letter of an envelope sets its own parameter: attack, decay, sustain,
/// release, duty or volume.
pub proof fn law_envelope_words_set_what_they_name(d: Envelope, k: Seq<char>, v: Seq<char>)
    requires
        envelope_pair(d, k, v) is Ok,
    ensures
        ({
            let a = d.inst;
            let b = envelope_pair(d, k, v)->Ok_0.inst;
            &&& k == "a"@ ==> text::parse_uint(v, 10, u16::MAX as nat) == Some(b.attack_ms as nat)
            &&& k != "a"@ ==> b.attack_ms == a.attack_ms
            &&& k == "d"@ ==> text::parse_uint(v, 10, u16::MAX as nat) == Some(b.decay_ms as nat)
            &&& k != "d"@ ==> b.decay_ms == a.decay_ms
            &&& k == "r"@ ==> text::parse_uint(v, 10, u16::MAX as nat) == Some(b.release_ms as nat)
            &&& k != "r"@ ==> b.release_ms == a.release_ms
            &&& k == "s"@ ==> level_value(v) is Ok && b.sustain == level_value(v)->Ok_0
            &&& k != "s"@ ==> b.sustain == a.sustain
            &&& k == "duty"@ ==> level_value(v) is Ok && b.duty == level_value(v)->Ok_0
            &&& k != "duty"@ ==> b.duty == a.duty
            &&& k == "vol"@ ==> level_value(v) is Ok && b.volume == level_value(v)->Ok_0
            &&& k != "vol"@ ==> b.volume == a.volume
        }),
{
    lemma_words();
    lemma_count(v, 10, u16::MAX as nat);
}

} // verus!
