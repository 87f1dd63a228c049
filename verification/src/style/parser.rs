//! Reading a style: a line-oriented text of `@directive key=value` lines.

use vstd::prelude::*;

use crate::gen;
use crate::song;
use crate::song::{Instrument, INSTRUMENTS, STEPS_PER_PHRASE};
use crate::style;
use crate::style::{Drums, DrumsView, Progression, ProgressionView, Riff, RiffView};
use crate::style::{Section, SectionView, Style, StyleSample, StyleSampleView, StyleView};
use crate::text;
use crate::vip;

verus! {

/// What is wrong with a style.
#[derive(Clone, Copy, Debug, PartialEq, Eq, Structural)]
pub enum StyleFault {
    NotADirective,
    UnknownDirective,
    BadNumber,
    BadKey,
    UnknownScale,
    MissingName,
    /// A scale that does not start at 0.
    ScaleStart,
    BadChord,
    EmptyProgression,
    InstrumentRange,
    RhythmLength,
    UnknownInstrument,
    AccentLength,
    BadAccent,
    /// A drum line without one token per step.
    DrumTokens,
    /// A section without riffs.
    SectionRiffs,
    SampleForm,
    SampleSlot,
    SampleRate,
    SamplePath,
    NoiseForm,
    BadNote,
    NoKeys,
    /// A gap in the sample bank.
    MissingSample,
    UnmappedToken,
    NoScales,
    NoProgressions,
    NoRiffs,
    NoDrums,
    NoSections,
    NoForms,
    TempoRange,
    UnknownSection,
    UnknownRiff,
    UnknownDrums,
}

/// A fault and the line it is on, counted from 1; line 0 where the style as
/// a whole is at fault.
#[derive(Clone, Copy, Debug, PartialEq, Eq, Structural)]
pub struct StyleError {
    pub line: usize,
    pub fault: StyleFault,
}

/// Whether a reader's result and the value it leaves are the wanted ones.
pub open spec fn agrees<S, E>(r: Result<(), E>, now: S, want: Result<S, E>) -> bool {
    match r {
        Ok(_) => want == Ok::<S, E>(now),
        Err(e) => want == Err::<S, E>(e),
    }
}

/// Applies pairs from `i` on, one after the other, up to the first fault.
pub open spec fn fold_pairs<S, E>(
    f: spec_fn(S, Seq<char>, Seq<char>) -> Result<S, E>,
    s: S,
    ps: Seq<(Seq<char>, Seq<char>)>,
    i: nat,
) -> Result<S, E>
    decreases ps.len() - i,
{
    if i >= ps.len() {
        Ok(s)
    } else {
        match f(s, ps[i as int].0, ps[i as int].1) {
            Ok(t) => fold_pairs(f, t, ps, i + 1),
            Err(e) => Err(e),
        }
    }
}

/// Applies words from `i` on, one after the other, up to the first fault.
pub open spec fn fold_words<S, E>(
    f: spec_fn(S, Seq<char>) -> Result<S, E>,
    s: S,
    ws: Seq<Seq<char>>,
    i: nat,
) -> Result<S, E>
    decreases ws.len() - i,
{
    if i >= ws.len() {
        Ok(s)
    } else {
        match f(s, ws[i as int]) {
            Ok(t) => fold_words(f, t, ws, i + 1),
            Err(e) => Err(e),
        }
    }
}

/// The name that opens an argument text and the rest; `None` where nothing
/// follows the name.
pub open spec fn named_args(args: Seq<char>) -> Option<(Seq<char>, Seq<char>)> {
    let k = text::ws_index(args);
    if k < args.len() {
        Some((args.take(k as int), text::trim(args.skip(k as int))))
    } else {
        None
    }
}

pub fn split_name<'a>(args: &'a [char]) -> (r: Option<(&'a [char], &'a [char])>)
    ensures
        match r {
            Some(p) => named_args(args@) == Some((p.0@, p.1@)),
            None => named_args(args@) is None,
        },
{
    let k: usize = text::find_ws(args);
    if k < args.len() {
        Some((text::head(args, k), text::trimmed(text::tail(args, k))))
    } else {
        None
    }
}

/// The entries of a comma-separated list among the first `k` pieces.
pub open spec fn items_of(ps: Seq<Seq<char>>, k: nat) -> Seq<Seq<char>>
    decreases k,
{
    if k == 0 {
        Seq::empty()
    } else {
        let before = items_of(ps, (k - 1) as nat);
        let t = text::trim(ps[k - 1]);
        if t.len() == 0 {
            before
        } else {
            before.push(t)
        }
    }
}

/// The entries of a comma-separated list; empty ones are left out.
pub open spec fn items(s: Seq<char>) -> Seq<Seq<char>> {
    let ps = text::pieces(s, ',');
    items_of(ps, ps.len())
}

fn list<'a>(s: &'a [char]) -> (r: Vec<&'a [char]>)
    ensures
        text::views(r@) == items(s@),
{
    let ps: Vec<&'a [char]> = text::split_on(s, ',');
    let ghost all = text::pieces(s@, ',');
    assert(all.len() == ps@.len()) by {
        assert(text::views(ps@).len() == ps@.len());
    }
    let mut out: Vec<&'a [char]> = Vec::new();
    assert(text::views(out@) =~= Seq::<Seq<char>>::empty());
    for i in 0..ps.len()
        invariant
            all == text::views(ps@),
            text::views(out@) == items_of(all, i as nat),
    {
        assert(all[i as int] == ps@[i as int]@);
        let t: &'a [char] = text::trimmed(ps[i]);
        if t.len() > 0 {
            proof {
                text::lemma_views_push(out@, t);
            }
            out.push(t);
        }
    }
    out
}

/// Owned copies.
fn owned(v: &Vec<&[char]>) -> (r: Vec<String>)
    ensures
        text::texts(r@) == text::views(v@),
{
    let mut out: Vec<String> = Vec::new();
    for i in 0..v.len()
        invariant
            out@.len() == i,
            forall|k: int| 0 <= k < i ==> (#[trigger] out@[k])@ == v@[k]@,
    {
        out.push(text::string_of(v[i]));
    }
    assert(text::texts(out@) =~= text::views(v@));
    out
}

/// Numbers from a list of words; `None` where one is no number up to `max`.
pub open spec fn numbers(ws: Seq<Seq<char>>, k: nat, max: nat) -> Option<Seq<nat>>
    decreases k,
{
    if k == 0 {
        Some(Seq::empty())
    } else {
        match (numbers(ws, (k - 1) as nat, max), text::parse_uint(ws[k - 1], 10, max)) {
            (Some(before), Some(n)) => Some(before.push(n)),
            _ => None,
        }
    }
}

proof fn lemma_numbers_stop(ws: Seq<Seq<char>>, k: nat, n: nat, max: nat)
    requires
        k <= n,
        numbers(ws, k, max) is None,
    ensures
        numbers(ws, n, max) is None,
    decreases n - k,
{
    if k < n {
        lemma_numbers_stop(ws, k + 1, n, max);
    }
}


fn read_sizes(ws: &Vec<&[char]>) -> (r: Option<Vec<usize>>)
    ensures
        match r {
            Some(v) => numbers(text::views(ws@), ws@.len(), usize::MAX as nat) == Some(
                v@.map_values(|n: usize| n as nat),
            ),
            None => numbers(text::views(ws@), ws@.len(), usize::MAX as nat) is None,
        },
{
    let ghost all = text::views(ws@);
    let mut out: Vec<usize> = Vec::new();
    assert(out@.map_values(|n: usize| n as nat) =~= Seq::<nat>::empty());
    for i in 0..ws.len()
        invariant
            all == text::views(ws@),
            numbers(all, i as nat, usize::MAX as nat) == Some(
                out@.map_values(|n: usize| n as nat),
            ),
    {
        assert(all[i as int] == ws@[i as int]@);
        match text::read_uint(ws[i], 10, usize::MAX as u64) {
            Some(n) => {
                let ghost before = out@;
                out.push(n as usize);
                assert(out@.map_values(|n: usize| n as nat) =~= before.map_values(
                    |n: usize| n as nat,
                ).push(n as nat));
            },
            None => {
                proof {
                    lemma_numbers_stop(all, (i + 1) as nat, ws@.len(), usize::MAX as nat);
                }
                return None;
            },
        }
    }
    Some(out)
}

// ---------------------------------------------------------------- small directives

pub open spec fn name_pair(st: StyleView, k: Seq<char>, v: Seq<char>) -> Result<
    StyleView,
    StyleFault,
> {
    if k == "name"@ {
        Ok(StyleView { name: v, ..st })
    } else if k == "version"@ {
        Ok(StyleView { version: v, ..st })
    } else {
        Ok(st)
    }
}

pub open spec fn name_step() -> spec_fn(StyleView, Seq<char>, Seq<char>) -> Result<
    StyleView,
    StyleFault,
> {
    |st: StyleView, k: Seq<char>, v: Seq<char>| name_pair(st, k, v)
}

fn read_name_pair(st: &mut Style, k: &[char], v: &[char]) -> (r: Result<(), StyleFault>)
    ensures
        agrees(r, final(st)@, name_pair(old(st)@, k@, v@)),
{
    if text::is_lit(k, "name") {
        st.name = text::string_of(v);
    } else if text::is_lit(k, "version") {
        st.version = text::string_of(v);
    }
    Ok(())
}

fn read_name_pairs(st: &mut Style, args: &[char]) -> (r: Result<(), StyleFault>)
    ensures
        agrees(
            r,
            final(st)@,
            fold_pairs(name_step(), old(st)@, text::pairs(args@), 0),
        ),
{
    let ps: Vec<(&[char], &[char])> = text::kv(args);
    let ghost all = text::pairs(args@);
    let ghost f = name_step();
    let ghost start = st@;
    let mut i: usize = 0;
    while i < ps.len()
        invariant
            i <= ps@.len(),
            all == text::pairs(args@),
            all == text::pair_views(ps@),
            f == name_step(),
            start == old(st)@,
            fold_pairs(f, start, all, 0) == fold_pairs(f, st@, all, i as nat),
        decreases ps@.len() - i,
    {
        assert(all[i as int] == (ps@[i as int].0@, ps@[i as int].1@));
        match read_name_pair(st, ps[i].0, ps[i].1) {
            Ok(_) => {},
            Err(e) => {
                return Err(e);
            },
        }
        i += 1;
    }
    Ok(())
}

pub open spec fn tempo_pair(st: StyleView, k: Seq<char>, v: Seq<char>) -> Result<
    StyleView,
    StyleFault,
> {
    if k == "min"@ || k == "max"@ {
        match text::parse_uint(v, 10, u16::MAX as nat) {
            Some(n) => Ok(
                if k == "min"@ {
                    StyleView { tempo_min: n as u16, ..st }
                } else {
                    StyleView { tempo_max: n as u16, ..st }
                },
            ),
            None => Err(StyleFault::BadNumber),
        }
    } else {
        Ok(st)
    }
}

pub open spec fn tempo_step() -> spec_fn(StyleView, Seq<char>, Seq<char>) -> Result<
    StyleView,
    StyleFault,
> {
    |st: StyleView, k: Seq<char>, v: Seq<char>| tempo_pair(st, k, v)
}

fn read_tempo_pair(st: &mut Style, k: &[char], v: &[char]) -> (r: Result<(), StyleFault>)
    ensures
        agrees(r, final(st)@, tempo_pair(old(st)@, k@, v@)),
{
    let low: bool = text::is_lit(k, "min");
    if low || text::is_lit(k, "max") {
        match text::read_uint(v, 10, u16::MAX as u64) {
            Some(n) => {
                if low {
                    st.tempo_min = n as u16;
                } else {
                    st.tempo_max = n as u16;
                }
            },
            None => {
                return Err(StyleFault::BadNumber);
            },
        }
    }
    Ok(())
}

fn read_tempo_pairs(st: &mut Style, args: &[char]) -> (r: Result<(), StyleFault>)
    ensures
        agrees(
            r,
            final(st)@,
            fold_pairs(tempo_step(), old(st)@, text::pairs(args@), 0),
        ),
{
    let ps: Vec<(&[char], &[char])> = text::kv(args);
    let ghost all = text::pairs(args@);
    let ghost f = tempo_step();
    let ghost start = st@;
    let mut i: usize = 0;
    while i < ps.len()
        invariant
            i <= ps@.len(),
            all == text::pairs(args@),
            all == text::pair_views(ps@),
            f == tempo_step(),
            start == old(st)@,
            fold_pairs(f, start, all, 0) == fold_pairs(f, st@, all, i as nat),
        decreases ps@.len() - i,
    {
        assert(all[i as int] == (ps@[i as int].0@, ps@[i as int].1@));
        match read_tempo_pair(st, ps[i].0, ps[i].1) {
            Ok(_) => {},
            Err(e) => {
                return Err(e);
            },
        }
        i += 1;
    }
    Ok(())
}

pub open spec fn key_word(st: StyleView, t: Seq<char>) -> Result<StyleView, StyleFault> {
    match gen::key_named(t) {
        Some(k) => Ok(StyleView { keys: st.keys.push(k), ..st }),
        None => Err(StyleFault::BadKey),
    }
}

pub open spec fn key_step() -> spec_fn(StyleView, Seq<char>) -> Result<StyleView, StyleFault> {
    |st: StyleView, t: Seq<char>| key_word(st, t)
}

fn read_key_word(st: &mut Style, t: &[char]) -> (r: Result<(), StyleFault>)
    ensures
        agrees(r, final(st)@, key_word(old(st)@, t@)),
{
    match gen::read_key(t) {
        Some(k) => {
            st.keys.push(k);
            Ok(())
        },
        None => Err(StyleFault::BadKey),
    }
}

fn read_key_words(st: &mut Style, args: &[char]) -> (r: Result<(), StyleFault>)
    ensures
        agrees(
            r,
            final(st)@,
            fold_words(key_step(), old(st)@, text::words(args@), 0),
        ),
{
    let ws: Vec<&[char]> = text::split_words(args);
    let ghost all = text::words(args@);
    let ghost f = key_step();
    let ghost start = st@;
    let mut i: usize = 0;
    while i < ws.len()
        invariant
            i <= ws@.len(),
            all == text::words(args@),
            all == text::views(ws@),
            f == key_step(),
            start == old(st)@,
            fold_words(f, start, all, 0) == fold_words(f, st@, all, i as nat),
        decreases ws@.len() - i,
    {
        assert(all[i as int] == ws@[i as int]@);
        match read_key_word(st, ws[i]) {
            Ok(_) => {},
            Err(e) => {
                return Err(e);
            },
        }
        i += 1;
    }
    Ok(())
}

/// Whether a scale of that name is defined.
pub open spec fn has_scale(v: Seq<(Seq<char>, Seq<u8>)>, name: Seq<char>) -> bool {
    exists|i: int| 0 <= i < v.len() && (#[trigger] v[i]).0 == name
}

pub(crate) fn defines_scale(v: &Vec<(String, Vec<u8>)>, name: &[char]) -> (r: bool)
    ensures
        r == has_scale(style::scale_views(v@), name@),
{
    let ghost all = style::scale_views(v@);
    let mut i: usize = 0;
    while i < v.len()
        invariant
            i <= v@.len(),
            all == style::scale_views(v@),
            forall|k: int| 0 <= k < i ==> (#[trigger] all[k]).0 != name@,
        decreases v@.len() - i,
    {
        assert(all[i as int].0 == v@[i as int].0@);
        if text::is_lit(name, v[i].0.as_str()) {
            return true;
        }
        i += 1;
    }
    false
}

pub open spec fn scales_word(st: StyleView, t: Seq<char>) -> Result<StyleView, StyleFault> {
    match gen::mode_named(t) {
        Some(m) => Ok(StyleView { scales: st.scales.push((t, gen::mode_steps(m))), ..st }),
        None => if has_scale(st.scales, t) {
            Ok(st)
        } else {
            Err(StyleFault::UnknownScale)
        },
    }
}

pub open spec fn scales_step() -> spec_fn(StyleView, Seq<char>) -> Result<StyleView, StyleFault> {
    |st: StyleView, t: Seq<char>| scales_word(st, t)
}

fn bytes_copy(v: &[u8]) -> (r: Vec<u8>)
    ensures
        r@ == v@,
{
    let mut out: Vec<u8> = Vec::new();
    for i in 0..v.len()
        invariant
            out@ == v@.take(i as int),
    {
        out.push(v[i]);
        assert(out@ =~= v@.take(i + 1));
    }
    assert(v@.take(v@.len() as int) =~= v@);
    out
}

fn read_scales_word(st: &mut Style, t: &[char]) -> (r: Result<(), StyleFault>)
    ensures
        agrees(r, final(st)@, scales_word(old(st)@, t@)),
{
    match gen::read_mode(t) {
        Some(m) => {
            let iv: Vec<u8> = bytes_copy(m.intervals());
            let ghost before = st.scales@;
            st.scales.push((text::string_of(t), iv));
            assert(style::scale_views(st.scales@) =~= style::scale_views(before).push(
                (t@, iv@),
            ));
            Ok(())
        },
        None => if defines_scale(&st.scales, t) {
            Ok(())
        } else {
            Err(StyleFault::UnknownScale)
        },
    }
}

fn read_scales_words(st: &mut Style, args: &[char]) -> (r: Result<(), StyleFault>)
    ensures
        agrees(
            r,
            final(st)@,
            fold_words(scales_step(), old(st)@, text::words(args@), 0),
        ),
{
    let ws: Vec<&[char]> = text::split_words(args);
    let ghost all = text::words(args@);
    let ghost f = scales_step();
    let ghost start = st@;
    let mut i: usize = 0;
    while i < ws.len()
        invariant
            i <= ws@.len(),
            all == text::words(args@),
            all == text::views(ws@),
            f == scales_step(),
            start == old(st)@,
            fold_words(f, start, all, 0) == fold_words(f, st@, all, i as nat),
        decreases ws@.len() - i,
    {
        assert(all[i as int] == ws@[i as int]@);
        match read_scales_word(st, ws[i]) {
            Ok(_) => {},
            Err(e) => {
                return Err(e);
            },
        }
        i += 1;
    }
    Ok(())
}

/// The first `k` scales without those of a name.
pub open spec fn scales_without(v: Seq<(Seq<char>, Seq<u8>)>, name: Seq<char>, k: nat) -> Seq<
    (Seq<char>, Seq<u8>),
>
    decreases k,
{
    if k == 0 {
        Seq::empty()
    } else {
        let before = scales_without(v, name, (k - 1) as nat);
        if v[k - 1].0 == name {
            before
        } else {
            before.push(v[k - 1])
        }
    }
}

pub open spec fn scale_line(st: StyleView, args: Seq<char>) -> Result<StyleView, StyleFault> {
    let ws = text::words(args);
    if ws.len() == 0 {
        Err(StyleFault::MissingName)
    } else {
        match numbers(ws.skip(1), (ws.len() - 1) as nat, u8::MAX as nat) {
            None => Err(StyleFault::BadNumber),
            Some(iv) => if iv.len() == 0 || iv[0] != 0 {
                Err(StyleFault::ScaleStart)
            } else {
                Ok(
                    StyleView {
                        scales: scales_without(st.scales, ws[0], st.scales.len()).push(
                            (ws[0], iv.map_values(|n: nat| n as u8)),
                        ),
                        ..st
                    },
                )
            },
        }
    }
}

fn drop_scale(v: &mut Vec<(String, Vec<u8>)>, name: &[char])
    ensures
        style::scale_views(final(v)@) == scales_without(
            style::scale_views(old(v)@),
            name@,
            old(v)@.len(),
        ),
{
    let ghost all = style::scale_views(v@);
    let ghost first = v@;
    let mut i: usize = 0;
    let ghost mut j: nat = 0;
    assert(scales_without(all, name@, 0) + all.skip(0) =~= all);
    while i < v.len()
        invariant
            all == style::scale_views(first),
            first == old(v)@,
            j <= all.len(),
            i == scales_without(all, name@, j).len(),
            style::scale_views(v@) == scales_without(all, name@, j) + all.skip(j as int),
        decreases v@.len() - i,
    {
        let ghost kept = scales_without(all, name@, j);
        assert(style::scale_views(v@).len() == v@.len());
        assert(style::scale_views(v@)[i as int] == all.skip(j as int)[0]);
        assert(all.skip(j as int)[0] == all[j as int]);
        assert(all.skip(j as int).skip(1) =~= all.skip((j + 1) as int));
        let ghost was = v@;
        if text::is_lit(name, v[i].0.as_str()) {
            v.remove(i);
            assert(style::scale_views(v@) =~= style::scale_views(was).remove(i as int));
            assert(style::scale_views(v@) =~= kept + all.skip((j + 1) as int));
        } else {
            i += 1;
            assert(style::scale_views(v@) =~= kept.push(all[j as int]) + all.skip((j + 1) as int));
        }
        proof {
            j = j + 1;
        }
    }
    assert(style::scale_views(v@).len() == v@.len());
    assert(all.skip(j as int).len() == 0);
    assert(all.len() == first.len());
    assert(style::scale_views(v@) =~= scales_without(all, name@, j));
}

fn read_scale_line(st: &mut Style, args: &[char]) -> (r: Result<(), StyleFault>)
    ensures
        agrees(r, final(st)@, scale_line(old(st)@, args@)),
{
    let ws: Vec<&[char]> = text::split_words(args);
    let ghost all = text::words(args@);
    assert(all.len() == ws@.len()) by {
        assert(text::views(ws@).len() == ws@.len());
    }
    if ws.len() == 0 {
        return Err(StyleFault::MissingName);
    }
    let ghost tail = all.skip(1);
    let mut iv: Vec<u8> = Vec::new();
    assert(iv@.map_values(|n: u8| n as nat) =~= Seq::<nat>::empty());
    for i in 1..ws.len()
        invariant
            all == text::words(args@),
            all == text::views(ws@),
            all.len() == ws@.len(),
            tail == all.skip(1),
            numbers(tail, (i - 1) as nat, u8::MAX as nat) == Some(
                iv@.map_values(|n: u8| n as nat),
            ),
            iv@.len() == i - 1,
    {
        assert(tail[i - 1] == ws@[i as int]@);
        match text::read_uint(ws[i], 10, u8::MAX as u64) {
            Some(n) => {
                let ghost before = iv@;
                iv.push(n as u8);
                assert(iv@.map_values(|n: u8| n as nat) =~= before.map_values(
                    |n: u8| n as nat,
                ).push(n as nat));
            },
            None => {
                proof {
                    lemma_numbers_stop(tail, i as nat, (ws@.len() - 1) as nat, u8::MAX as nat);
                }
                return Err(StyleFault::BadNumber);
            },
        }
    }
    if iv.len() == 0 || iv[0] != 0 {
        return Err(StyleFault::ScaleStart);
    }
    assert(all[0] == ws@[0]@);
    assert(iv@.map_values(|n: u8| n as nat).map_values(|n: nat| n as u8) =~= iv@);
    drop_scale(&mut st.scales, ws[0]);
    let ghost before = st.scales@;
    let ghost steps = iv@;
    st.scales.push((text::string_of(ws[0]), iv));
    assert(style::scale_views(st.scales@) =~= style::scale_views(before).push((ws@[0]@, steps)));
    Ok(())
}

/// What follows `name=` in a word.
pub open spec fn after_name(t: Seq<char>) -> Option<Seq<char>> {
    if t.len() >= 5 && t.take(5) == "name="@ {
        Some(t.skip(5))
    } else {
        None
    }
}

pub open spec fn progression_word(p: ProgressionView, t: Seq<char>) -> Result<
    ProgressionView,
    StyleFault,
> {
    match after_name(t) {
        Some(n) => Ok(ProgressionView { name: n, ..p }),
        None => match style::chord_named(t) {
            Some(c) => Ok(ProgressionView { chords: p.chords.push(c), ..p }),
            None => Err(StyleFault::BadChord),
        },
    }
}

pub open spec fn progression_step() -> spec_fn(ProgressionView, Seq<char>) -> Result<
    ProgressionView,
    StyleFault,
> {
    |p: ProgressionView, t: Seq<char>| progression_word(p, t)
}

fn read_progression_word(st: &mut Progression, t: &[char]) -> (r: Result<(), StyleFault>)
    ensures
        agrees(r, final(st)@, progression_word(old(st)@, t@)),
{
    if t.len() >= 5 && text::is_lit(text::head(t, 5), "name=") {
        st.name = text::string_of(text::tail(t, 5));
        return Ok(());
    }
    match style::read_chord(t) {
        Some(c) => {
            st.chords.push(c);
            Ok(())
        },
        None => Err(StyleFault::BadChord),
    }
}

fn read_progression_words(st: &mut Progression, args: &[char]) -> (r: Result<(), StyleFault>)
    ensures
        agrees(
            r,
            final(st)@,
            fold_words(progression_step(), old(st)@, text::words(args@), 0),
        ),
{
    let ws: Vec<&[char]> = text::split_words(args);
    let ghost all = text::words(args@);
    let ghost f = progression_step();
    let ghost start = st@;
    let mut i: usize = 0;
    while i < ws.len()
        invariant
            i <= ws@.len(),
            all == text::words(args@),
            all == text::views(ws@),
            f == progression_step(),
            start == old(st)@,
            fold_words(f, start, all, 0) == fold_words(f, st@, all, i as nat),
        decreases ws@.len() - i,
    {
        assert(all[i as int] == ws@[i as int]@);
        match read_progression_word(st, ws[i]) {
            Ok(_) => {},
            Err(e) => {
                return Err(e);
            },
        }
        i += 1;
    }
    Ok(())
}

pub open spec fn progression_line(st: StyleView, args: Seq<char>) -> Result<StyleView, StyleFault> {
    match fold_words(
        progression_step(),
        ProgressionView { name: Seq::empty(), chords: Seq::empty() },
        text::words(args),
        0,
    ) {
        Err(e) => Err(e),
        Ok(p) => if p.chords.len() == 0 {
            Err(StyleFault::EmptyProgression)
        } else if p.name.len() == 0 {
            Ok(
                StyleView {
                    progressions: st.progressions.push(
                        ProgressionView {
                            name: "prog"@ + text::dec(st.progressions.len()),
                            ..p
                        },
                    ),
                    ..st
                },
            )
        } else {
            Ok(StyleView { progressions: st.progressions.push(p), ..st })
        },
    }
}

fn read_progression_line(st: &mut Style, args: &[char]) -> (r: Result<(), StyleFault>)
    ensures
        agrees(r, final(st)@, progression_line(old(st)@, args@)),
{
    let mut p: Progression = Progression { name: String::new(), chords: Vec::new() };
    assert(p@ =~= ProgressionView { name: Seq::empty(), chords: Seq::empty() });
    match read_progression_words(&mut p, args) {
        Ok(_) => {},
        Err(e) => {
            return Err(e);
        },
    }
    if p.chords.len() == 0 {
        return Err(StyleFault::EmptyProgression);
    }
    let name: Vec<char> = text::chars_of(p.name.as_str());
    if name.len() == 0 {
        let mut t: Vec<char> = text::chars_of("prog");
        text::put_dec(&mut t, st.progressions.len() as u64);
        p.name = text::string_of(t.as_slice());
    }
    let ghost before = st.progressions@;
    let ghost pv = p@;
    assert(style::progression_views(before).len() == before.len());
    st.progressions.push(p);
    assert(style::progression_views(st.progressions@) =~= style::progression_views(before).push(
        pv,
    ));
    Ok(())
}

pub open spec fn motif_word(m: Seq<i32>, t: Seq<char>) -> Result<Seq<i32>, StyleFault> {
    match text::parse_int(t, 0x8000_0000, i32::MAX as nat) {
        Some(n) => Ok(m.push(n as i32)),
        None => Err(StyleFault::BadNumber),
    }
}

pub open spec fn motif_step() -> spec_fn(Seq<i32>, Seq<char>) -> Result<Seq<i32>, StyleFault> {
    |m: Seq<i32>, t: Seq<char>| motif_word(m, t)
}

fn read_motif_word(st: &mut Vec<i32>, t: &[char]) -> (r: Result<(), StyleFault>)
    ensures
        agrees(r, final(st)@, motif_word(old(st)@, t@)),
{
    match text::read_int(t, 0x8000_0000, i32::MAX as u32) {
        Some(n) => {
            st.push(n as i32);
            Ok(())
        },
        None => Err(StyleFault::BadNumber),
    }
}

fn read_motif_words(st: &mut Vec<i32>, args: &[char]) -> (r: Result<(), StyleFault>)
    ensures
        agrees(
            r,
            final(st)@,
            fold_words(motif_step(), old(st)@, text::words(args@), 0),
        ),
{
    let ws: Vec<&[char]> = text::split_words(args);
    let ghost all = text::words(args@);
    let ghost f = motif_step();
    let ghost start = st@;
    let mut i: usize = 0;
    while i < ws.len()
        invariant
            i <= ws@.len(),
            all == text::words(args@),
            all == text::views(ws@),
            f == motif_step(),
            start == old(st)@,
            fold_words(f, start, all, 0) == fold_words(f, st@, all, i as nat),
        decreases ws@.len() - i,
    {
        assert(all[i as int] == ws@[i as int]@);
        match read_motif_word(st, ws[i]) {
            Ok(_) => {},
            Err(e) => {
                return Err(e);
            },
        }
        i += 1;
    }
    Ok(())
}

pub open spec fn title_pair(st: StyleView, k: Seq<char>, v: Seq<char>) -> Result<
    StyleView,
    StyleFault,
> {
    if k == "adj"@ {
        Ok(StyleView { title_adj: items(v), ..st })
    } else if k == "noun"@ {
        Ok(StyleView { title_noun: items(v), ..st })
    } else {
        Ok(st)
    }
}

pub open spec fn title_step() -> spec_fn(StyleView, Seq<char>, Seq<char>) -> Result<
    StyleView,
    StyleFault,
> {
    |st: StyleView, k: Seq<char>, v: Seq<char>| title_pair(st, k, v)
}

fn read_title_pair(st: &mut Style, k: &[char], v: &[char]) -> (r: Result<(), StyleFault>)
    ensures
        agrees(r, final(st)@, title_pair(old(st)@, k@, v@)),
{
    if text::is_lit(k, "adj") {
        st.title_adj = owned(&list(v));
    } else if text::is_lit(k, "noun") {
        st.title_noun = owned(&list(v));
    }
    Ok(())
}

fn read_title_pairs(st: &mut Style, args: &[char]) -> (r: Result<(), StyleFault>)
    ensures
        agrees(
            r,
            final(st)@,
            fold_pairs(title_step(), old(st)@, text::pairs(args@), 0),
        ),
{
    let ps: Vec<(&[char], &[char])> = text::kv(args);
    let ghost all = text::pairs(args@);
    let ghost f = title_step();
    let ghost start = st@;
    let mut i: usize = 0;
    while i < ps.len()
        invariant
            i <= ps@.len(),
            all == text::pairs(args@),
            all == text::pair_views(ps@),
            f == title_step(),
            start == old(st)@,
            fold_pairs(f, start, all, 0) == fold_pairs(f, st@, all, i as nat),
        decreases ps@.len() - i,
    {
        assert(all[i as int] == (ps@[i as int].0@, ps@[i as int].1@));
        match read_title_pair(st, ps[i].0, ps[i].1) {
            Ok(_) => {},
            Err(e) => {
                return Err(e);
            },
        }
        i += 1;
    }
    Ok(())
}

/// A note and an instrument: `C-6/03`.
pub open spec fn noise_value(v: Seq<char>) -> Result<(u8, u8), StyleFault> {
    let k = text::char_index(v, '/');
    if k >= v.len() {
        Err(StyleFault::NoiseForm)
    } else {
        match vip::parse_note(v.take(k as int)) {
            None => Err(StyleFault::BadNote),
            Some(n) => match text::parse_uint(v.skip((k + 1) as int), 16, u8::MAX as nat) {
                None => Err(StyleFault::BadNumber),
                Some(i) => Ok((n, i as u8)),
            },
        }
    }
}

pub(crate) fn read_noise_value(v: &[char]) -> (r: Result<(u8, u8), StyleFault>)
    ensures
        r == noise_value(v@),
{
    let k: usize = text::find_char(v, '/');
    if k >= v.len() {
        return Err(StyleFault::NoiseForm);
    }
    match vip::read_note(text::head(v, k)) {
        None => Err(StyleFault::BadNote),
        Some(n) => match text::read_uint(text::tail(v, k + 1), 16, u8::MAX as u64) {
            None => Err(StyleFault::BadNumber),
            Some(i) => Ok((n, i as u8)),
        },
    }
}

pub open spec fn noise_pair(st: StyleView, k: Seq<char>, v: Seq<char>) -> Result<
    StyleView,
    StyleFault,
> {
    if k == "hat"@ || k == "open"@ || k == "crash"@ {
        match noise_value(v) {
            Err(e) => Err(e),
            Ok(p) => Ok(
                if k == "hat"@ {
                    StyleView { hat: p, ..st }
                } else if k == "open"@ {
                    StyleView { open_hat: p, ..st }
                } else {
                    StyleView { crash: p, ..st }
                },
            ),
        }
    } else {
        Ok(st)
    }
}

pub open spec fn noise_step() -> spec_fn(StyleView, Seq<char>, Seq<char>) -> Result<
    StyleView,
    StyleFault,
> {
    |st: StyleView, k: Seq<char>, v: Seq<char>| noise_pair(st, k, v)
}

fn read_noise_pair(st: &mut Style, k: &[char], v: &[char]) -> (r: Result<(), StyleFault>)
    ensures
        agrees(r, final(st)@, noise_pair(old(st)@, k@, v@)),
{
    let hat: bool = text::is_lit(k, "hat");
    let open: bool = text::is_lit(k, "open");
    if hat || open || text::is_lit(k, "crash") {
        match read_noise_value(v) {
            Err(e) => {
                return Err(e);
            },
            Ok(p) => {
                if hat {
                    st.hat = p;
                } else if open {
                    st.open_hat = p;
                } else {
                    st.crash = p;
                }
            },
        }
    }
    Ok(())
}

fn read_noise_pairs(st: &mut Style, args: &[char]) -> (r: Result<(), StyleFault>)
    ensures
        agrees(
            r,
            final(st)@,
            fold_pairs(noise_step(), old(st)@, text::pairs(args@), 0),
        ),
{
    let ps: Vec<(&[char], &[char])> = text::kv(args);
    let ghost all = text::pairs(args@);
    let ghost f = noise_step();
    let ghost start = st@;
    let mut i: usize = 0;
    while i < ps.len()
        invariant
            i <= ps@.len(),
            all == text::pairs(args@),
            all == text::pair_views(ps@),
            f == noise_step(),
            start == old(st)@,
            fold_pairs(f, start, all, 0) == fold_pairs(f, st@, all, i as nat),
        decreases ps@.len() - i,
    {
        assert(all[i as int] == (ps@[i as int].0@, ps@[i as int].1@));
        match read_noise_pair(st, ps[i].0, ps[i].1) {
            Ok(_) => {},
            Err(e) => {
                return Err(e);
            },
        }
        i += 1;
    }
    Ok(())
}

// ---------------------------------------------------------------- instruments

/// Where a name stands in the list, from `i` on.
pub open spec fn name_index(v: Seq<(Seq<char>, u8)>, name: Seq<char>, i: nat) -> Option<nat>
    decreases v.len() - i,
{
    if i >= v.len() {
        None
    } else if v[i as int].0 == name {
        Some(i)
    } else {
        name_index(v, name, i + 1)
    }
}

/// The list with a name bound to a number; an earlier binding is replaced.
pub open spec fn bound(v: Seq<(Seq<char>, u8)>, name: Seq<char>, n: u8) -> Seq<(Seq<char>, u8)> {
    match name_index(v, name, 0) {
        Some(i) => v.update(i as int, (name, n)),
        None => v.push((name, n)),
    }
}

/// No name stands twice.
pub open spec fn names_distinct(v: Seq<(Seq<char>, u8)>) -> bool {
    forall|i: int, j: int|
        0 <= i < j < v.len() ==> (#[trigger] v[i]).0 != (#[trigger] v[j]).0
}

proof fn lemma_name_index(v: Seq<(Seq<char>, u8)>, name: Seq<char>, i: nat)
    requires
        i <= v.len(),
    ensures
        match name_index(v, name, i) {
            Some(k) => i <= k < v.len() && v[k as int].0 == name && forall|j: int|
                i <= j < k ==> (#[trigger] v[j]).0 != name,
            None => forall|j: int| i <= j < v.len() ==> (#[trigger] v[j]).0 != name,
        },
    decreases v.len() - i,
{
    if i < v.len() {
        lemma_name_index(v, name, i + 1);
    }
}

/// Binding a name keeps the names distinct.
pub proof fn law_binding_keeps_names_distinct(v: Seq<(Seq<char>, u8)>, name: Seq<char>, n: u8)
    requires
        names_distinct(v),
    ensures
        names_distinct(bound(v, name, n)),
{
    lemma_name_index(v, name, 0);
}

fn find_name(v: &Vec<(String, u8)>, name: &[char]) -> (r: Option<usize>)
    ensures
        match r {
            Some(i) => name_index(style::name_views(v@), name@, 0) == Some(i as nat) && i
                < v@.len(),
            None => name_index(style::name_views(v@), name@, 0) is None,
        },
{
    let ghost all = style::name_views(v@);
    let mut i: usize = 0;
    while i < v.len()
        invariant
            i <= v@.len(),
            all == style::name_views(v@),
            name_index(all, name@, 0) == name_index(all, name@, i as nat),
        decreases v@.len() - i,
    {
        assert(all[i as int].0 == v@[i as int].0@);
        if text::is_lit(name, v[i].0.as_str()) {
            return Some(i);
        }
        i += 1;
    }
    None
}

fn bind_name(v: &mut Vec<(String, u8)>, name: &[char], n: u8)
    ensures
        style::name_views(final(v)@) == bound(style::name_views(old(v)@), name@, n),
{
    let ghost before = v@;
    let entry: (String, u8) = (text::string_of(name), n);
    match find_name(v, name) {
        Some(i) => {
            v[i] = entry;
            assert(style::name_views(v@) =~= style::name_views(before).update(
                i as int,
                (name@, n),
            ));
        },
        None => {
            v.push(entry);
            assert(style::name_views(v@) =~= style::name_views(before).push((name@, n)));
        },
    }
}

/// An instrument while its line is read, and the names bound so far.
#[verifier::ext_equal]
pub struct InstrView {
    pub inst: Instrument,
    pub names: Seq<(Seq<char>, u8)>,
}

struct InstrDraft {
    inst: Instrument,
    names: Vec<(String, u8)>,
}

impl View for InstrDraft {
    type V = InstrView;

    closed spec fn view(&self) -> InstrView {
        InstrView { inst: self.inst, names: style::name_views(self.names@) }
    }
}

pub open spec fn ms_value(v: Seq<char>) -> Result<u16, StyleFault> {
    match text::parse_uint(v, 10, u16::MAX as nat) {
        Some(n) => Ok(n as u16),
        None => Err(StyleFault::BadNumber),
    }
}

pub open spec fn level_value(v: Seq<char>) -> Result<i32, StyleFault> {
    match text::parse_milli(v) {
        Some(n) => Ok(n as i32),
        None => Err(StyleFault::BadNumber),
    }
}

pub open spec fn odds_value(v: Seq<char>) -> Result<i32, StyleFault> {
    match text::parse_odds(v) {
        Some(n) => Ok(n as i32),
        None => Err(StyleFault::BadNumber),
    }
}

fn read_odds(v: &[char]) -> (r: Result<i32, StyleFault>)
    ensures
        r == odds_value(v@),
{
    match text::read_odds(v) {
        Some(n) => Ok(n),
        None => Err(StyleFault::BadNumber),
    }
}

fn read_ms(v: &[char]) -> (r: Result<u16, StyleFault>)
    ensures
        r == ms_value(v@),
{
    match text::read_uint(v, 10, u16::MAX as u64) {
        Some(n) => Ok(n as u16),
        None => Err(StyleFault::BadNumber),
    }
}

fn read_level(v: &[char]) -> (r: Result<i32, StyleFault>)
    ensures
        r == level_value(v@),
{
    match text::read_milli(v) {
        Some(n) => Ok(n),
        None => Err(StyleFault::BadNumber),
    }
}

pub open spec fn instr_pair(d: InstrView, k: Seq<char>, v: Seq<char>, slot: u8) -> Result<
    InstrView,
    StyleFault,
> {
    if k == "a"@ || k == "d"@ || k == "r"@ {
        match ms_value(v) {
            Err(e) => Err(e),
            Ok(n) => Ok(
                InstrView {
                    inst: if k == "a"@ {
                        Instrument { attack_ms: n, ..d.inst }
                    } else if k == "d"@ {
                        Instrument { decay_ms: n, ..d.inst }
                    } else {
                        Instrument { release_ms: n, ..d.inst }
                    },
                    ..d
                },
            ),
        }
    } else if k == "s"@ || k == "duty"@ || k == "vol"@ {
        match level_value(v) {
            Err(e) => Err(e),
            Ok(n) => Ok(
                InstrView {
                    inst: if k == "s"@ {
                        Instrument { sustain: n, ..d.inst }
                    } else if k == "duty"@ {
                        Instrument { duty: n, ..d.inst }
                    } else {
                        Instrument { volume: n, ..d.inst }
                    },
                    ..d
                },
            ),
        }
    } else if k == "name"@ {
        Ok(InstrView { names: bound(d.names, v, slot), ..d })
    } else {
        Ok(d)
    }
}

pub open spec fn instr_step(slot: u8) -> spec_fn(InstrView, Seq<char>, Seq<char>) -> Result<
    InstrView,
    StyleFault,
> {
    |d: InstrView, k: Seq<char>, v: Seq<char>| instr_pair(d, k, v, slot)
}

fn read_instr_pair(st: &mut InstrDraft, k: &[char], v: &[char], slot: u8) -> (r: Result<
    (),
    StyleFault,
>)
    ensures
        agrees(r, final(st)@, instr_pair(old(st)@, k@, v@, slot)),
{
    let a: bool = text::is_lit(k, "a");
    let d: bool = text::is_lit(k, "d");
    let s: bool = text::is_lit(k, "s");
    let duty: bool = text::is_lit(k, "duty");
    if a || d || text::is_lit(k, "r") {
        match read_ms(v) {
            Err(e) => {
                return Err(e);
            },
            Ok(n) => {
                if a {
                    st.inst.attack_ms = n;
                } else if d {
                    st.inst.decay_ms = n;
                } else {
                    st.inst.release_ms = n;
                }
            },
        }
    } else if s || duty || text::is_lit(k, "vol") {
        match read_level(v) {
            Err(e) => {
                return Err(e);
            },
            Ok(n) => {
                if s {
                    st.inst.sustain = n;
                } else if duty {
                    st.inst.duty = n;
                } else {
                    st.inst.volume = n;
                }
            },
        }
    } else if text::is_lit(k, "name") {
        bind_name(&mut st.names, v, slot);
    }
    Ok(())
}

fn read_instr_pairs(st: &mut InstrDraft, args: &[char], slot: u8) -> (r: Result<(), StyleFault>)
    ensures
        agrees(
            r,
            final(st)@,
            fold_pairs(instr_step(slot), old(st)@, text::pairs(args@), 0),
        ),
{
    let ps: Vec<(&[char], &[char])> = text::kv(args);
    let ghost all = text::pairs(args@);
    let ghost f = instr_step(slot);
    let ghost start = st@;
    let mut i: usize = 0;
    while i < ps.len()
        invariant
            i <= ps@.len(),
            all == text::pairs(args@),
            all == text::pair_views(ps@),
            f == instr_step(slot),
            start == old(st)@,
            fold_pairs(f, start, all, 0) == fold_pairs(f, st@, all, i as nat),
        decreases ps@.len() - i,
    {
        assert(all[i as int] == (ps@[i as int].0@, ps@[i as int].1@));
        match read_instr_pair(st, ps[i].0, ps[i].1, slot) {
            Ok(_) => {},
            Err(e) => {
                return Err(e);
            },
        }
        i += 1;
    }
    Ok(())
}

pub open spec fn instr_line(st: StyleView, args: Seq<char>) -> Result<StyleView, StyleFault> {
    let (slot, rest) = match named_args(args) {
        Some(p) => p,
        None => (args, Seq::empty()),
    };
    match text::parse_uint(slot, 16, usize::MAX as nat) {
        None => Err(StyleFault::BadNumber),
        Some(idx) => if idx >= INSTRUMENTS {
            Err(StyleFault::InstrumentRange)
        } else {
            match fold_pairs(
                instr_step(idx as u8),
                InstrView { inst: song::default_instrument(), names: st.instr_names },
                text::pairs(rest),
                0,
            ) {
                Err(e) => Err(e),
                Ok(d) => Ok(
                    StyleView {
                        instruments: st.instruments.push((idx as usize, d.inst)),
                        instr_names: d.names,
                        ..st
                    },
                ),
            }
        },
    }
}

fn read_instr_line(st: &mut Style, args: &[char]) -> (r: Result<(), StyleFault>)
    ensures
        agrees(r, final(st)@, instr_line(old(st)@, args@)),
        final(st).samples@ == old(st).samples@,
{
    let (slot, rest): (&[char], &[char]) = match split_name(args) {
        Some(p) => p,
        None => (args, text::head(args, 0)),
    };
    assert(rest@ == (match named_args(args@) {
        Some(p) => p.1,
        None => Seq::empty(),
    }));
    let idx: usize = match text::read_uint(slot, 16, usize::MAX as u64) {
        Some(n) => n as usize,
        None => {
            return Err(StyleFault::BadNumber);
        },
    };
    if idx >= INSTRUMENTS {
        return Err(StyleFault::InstrumentRange);
    }
    let mut names: Vec<(String, u8)> = Vec::new();
    std::mem::swap(&mut names, &mut st.instr_names);
    let mut d: InstrDraft = InstrDraft { inst: Instrument::default(), names };
    match read_instr_pairs(&mut d, rest, idx as u8) {
        Ok(_) => {},
        Err(e) => {
            return Err(e);
        },
    }
    st.instr_names = d.names;
    st.instruments.push((idx, d.inst));
    Ok(())
}

// ---------------------------------------------------------------- riffs

/// A riff with nothing said of it but its name.
pub open spec fn blank_riff(name: Seq<char>) -> RiffView {
    RiffView {
        name,
        rhythm: Seq::new(16, |i: int| true),
        contour: "walk"@,
        harmony: "third"@,
        bass: "roots"@,
        lead_instr: 0,
        harm_instr: 1,
        bass_instr: 2,
        pair: 1,
        fx: None,
        octave: 5,
        accent: None,
        slide: 0,
    }
}

/// An instrument by name or by hexadecimal number.
pub open spec fn instr_value(names: Seq<(Seq<char>, u8)>, v: Seq<char>) -> Result<u8, StyleFault> {
    match name_index(names, v, 0) {
        Some(i) => Ok(names[i as int].1),
        None => match text::parse_uint(v, 16, u8::MAX as nat) {
            Some(n) => Ok(n as u8),
            None => Err(StyleFault::UnknownInstrument),
        },
    }
}

/// A letter and a hexadecimal number of two characters.
pub open spec fn fx_value(v: Seq<char>) -> Option<(u8, u8)> {
    if v.len() == 3 && text::byte_len(v) == 3 {
        match text::parse_uint(v.skip(1), 16, u8::MAX as nat) {
            Some(n) => Some((text::up(v[0]) as u8, n as u8)),
            None => None,
        }
    } else {
        None
    }
}

pub open spec fn accent_value(v: Seq<char>) -> Result<(u8, u8), StyleFault> {
    if text::byte_len(v) != 2 {
        Err(StyleFault::AccentLength)
    } else if v.len() == 2 && text::digit_value(v[0]) < 16 && text::digit_value(v[1]) < 16 {
        Ok((text::digit_value(v[0]) as u8, text::digit_value(v[1]) as u8))
    } else {
        Err(StyleFault::BadAccent)
    }
}

pub open spec fn pair_value(v: Seq<char>) -> Result<usize, StyleFault> {
    match text::parse_uint(v, 10, usize::MAX as nat) {
        Some(n) => Ok(
            if n < 1 {
                1
            } else {
                n as usize
            },
        ),
        None => Err(StyleFault::BadNumber),
    }
}

pub open spec fn octave_value(v: Seq<char>) -> Result<i32, StyleFault> {
    match text::parse_int(v, 0x8000_0000, i32::MAX as nat) {
        Some(n) => Ok(n as i32),
        None => Err(StyleFault::BadNumber),
    }
}

pub open spec fn hit_marks(v: Seq<char>) -> Seq<bool> {
    v.map_values(|c: char| c == 'x' || c == 'X')
}

pub open spec fn riff_pair(r: RiffView, k: Seq<char>, v: Seq<char>, names: Seq<(Seq<char>, u8)>) -> Result<
    RiffView,
    StyleFault,
> {
    if k == "rhythm"@ {
        if text::byte_len(v) != STEPS_PER_PHRASE {
            Err(StyleFault::RhythmLength)
        } else {
            Ok(RiffView { rhythm: hit_marks(v), ..r })
        }
    } else if k == "contour"@ {
        Ok(RiffView { contour: v, ..r })
    } else if k == "harmony"@ {
        Ok(RiffView { harmony: v, ..r })
    } else if k == "bass"@ {
        Ok(RiffView { bass: v, ..r })
    } else if k == "lead"@ || k == "harm"@ || k == "bassi"@ {
        match instr_value(names, v) {
            Err(e) => Err(e),
            Ok(n) => Ok(
                if k == "lead"@ {
                    RiffView { lead_instr: n, ..r }
                } else if k == "harm"@ {
                    RiffView { harm_instr: n, ..r }
                } else {
                    RiffView { bass_instr: n, ..r }
                },
            ),
        }
    } else if k == "pair"@ {
        match pair_value(v) {
            Err(e) => Err(e),
            Ok(n) => Ok(RiffView { pair: n, ..r }),
        }
    } else if k == "fx"@ {
        Ok(RiffView { fx: fx_value(v), ..r })
    } else if k == "octave"@ {
        match octave_value(v) {
            Err(e) => Err(e),
            Ok(n) => Ok(RiffView { octave: n, ..r }),
        }
    } else if k == "accent"@ {
        match accent_value(v) {
            Err(e) => Err(e),
            Ok(a) => Ok(RiffView { accent: Some(a), ..r }),
        }
    } else if k == "slide"@ {
        match odds_value(v) {
            Err(e) => Err(e),
            Ok(n) => Ok(RiffView { slide: n, ..r }),
        }
    } else {
        Ok(r)
    }
}

pub open spec fn riff_step(names: Seq<(Seq<char>, u8)>) -> spec_fn(
    RiffView,
    Seq<char>,
    Seq<char>,
) -> Result<RiffView, StyleFault> {
    |r: RiffView, k: Seq<char>, v: Seq<char>| riff_pair(r, k, v, names)
}

pub(crate) fn read_instr_value(names: &Vec<(String, u8)>, v: &[char]) -> (r: Result<u8, StyleFault>)
    ensures
        r == instr_value(style::name_views(names@), v@),
{
    match find_name(names, v) {
        Some(i) => {
            assert(style::name_views(names@)[i as int].1 == names@[i as int].1);
            Ok(names[i].1)
        },
        None => match text::read_uint(v, 16, u8::MAX as u64) {
            Some(n) => Ok(n as u8),
            None => Err(StyleFault::UnknownInstrument),
        },
    }
}

pub fn read_fx_value(v: &[char]) -> (r: Option<(u8, u8)>)
    ensures
        r == fx_value(v@),
{
    if v.len() != 3 || !text::has_byte_len(v, 3) {
        return None;
    }
    let c: char = text::to_upper(v[0]);
    match text::read_uint(text::tail(v, 1), 16, u8::MAX as u64) {
        Some(n) => Some((c as u8, n as u8)),
        None => None,
    }
}

fn read_accent_value(v: &[char]) -> (r: Result<(u8, u8), StyleFault>)
    ensures
        r == accent_value(v@),
{
    if !text::has_byte_len(v, 2) {
        return Err(StyleFault::AccentLength);
    }
    if v.len() == 2 {
        let a: u32 = text::digit_of(v[0]);
        let b: u32 = text::digit_of(v[1]);
        if a < 16 && b < 16 {
            return Ok((a as u8, b as u8));
        }
    }
    Err(StyleFault::BadAccent)
}

fn read_pair_value(v: &[char]) -> (r: Result<usize, StyleFault>)
    ensures
        r == pair_value(v@),
{
    match text::read_uint(v, 10, usize::MAX as u64) {
        Some(n) => Ok(
            if n < 1 {
                1
            } else {
                n as usize
            },
        ),
        None => Err(StyleFault::BadNumber),
    }
}

fn read_octave_value(v: &[char]) -> (r: Result<i32, StyleFault>)
    ensures
        r == octave_value(v@),
{
    match text::read_int(v, 0x8000_0000, i32::MAX as u32) {
        Some(n) => Ok(n as i32),
        None => Err(StyleFault::BadNumber),
    }
}

fn marks_of(v: &[char]) -> (r: Vec<bool>)
    ensures
        r@ == hit_marks(v@),
{
    let mut out: Vec<bool> = Vec::new();
    for i in 0..v.len()
        invariant
            out@.len() == i,
            forall|k: int| 0 <= k < i ==> #[trigger] out@[k] == (v@[k] == 'x' || v@[k] == 'X'),
    {
        out.push(v[i] == 'x' || v[i] == 'X');
    }
    assert(out@ =~= hit_marks(v@));
    out
}

fn read_riff_pair(st: &mut Riff, k: &[char], v: &[char], names: &Vec<(String, u8)>) -> (r: Result<
    (),
    StyleFault,
>)
    ensures
        agrees(r, final(st)@, riff_pair(old(st)@, k@, v@, style::name_views(names@))),
{
    if text::is_lit(k, "rhythm") {
        if !text::has_byte_len(v, STEPS_PER_PHRASE) {
            return Err(StyleFault::RhythmLength);
        }
        st.rhythm = marks_of(v);
    } else if text::is_lit(k, "contour") {
        st.contour = text::string_of(v);
    } else if text::is_lit(k, "harmony") {
        st.harmony = text::string_of(v);
    } else if text::is_lit(k, "bass") {
        st.bass = text::string_of(v);
    } else if text::is_lit(k, "lead") || text::is_lit(k, "harm") || text::is_lit(k, "bassi") {
        match read_instr_value(names, v) {
            Err(e) => {
                return Err(e);
            },
            Ok(n) => {
                if text::is_lit(k, "lead") {
                    st.lead_instr = n;
                } else if text::is_lit(k, "harm") {
                    st.harm_instr = n;
                } else {
                    st.bass_instr = n;
                }
            },
        }
    } else if text::is_lit(k, "pair") {
        match read_pair_value(v) {
            Err(e) => {
                return Err(e);
            },
            Ok(n) => {
                st.pair = n;
            },
        }
    } else if text::is_lit(k, "fx") {
        st.fx = read_fx_value(v);
    } else if text::is_lit(k, "octave") {
        match read_octave_value(v) {
            Err(e) => {
                return Err(e);
            },
            Ok(n) => {
                st.octave = n;
            },
        }
    } else if text::is_lit(k, "accent") {
        match read_accent_value(v) {
            Err(e) => {
                return Err(e);
            },
            Ok(a) => {
                st.accent = Some(a);
            },
        }
    } else if text::is_lit(k, "slide") {
        match read_odds(v) {
            Err(e) => {
                return Err(e);
            },
            Ok(n) => {
                st.slide = n;
            },
        }
    }
    Ok(())
}

fn read_riff_pairs(st: &mut Riff, args: &[char], names: &Vec<(String, u8)>) -> (r: Result<(), StyleFault>)
    ensures
        agrees(
            r,
            final(st)@,
            fold_pairs(riff_step(style::name_views(names@)), old(st)@, text::pairs(args@), 0),
        ),
{
    let ps: Vec<(&[char], &[char])> = text::kv(args);
    let ghost all = text::pairs(args@);
    let ghost f = riff_step(style::name_views(names@));
    let ghost start = st@;
    let mut i: usize = 0;
    while i < ps.len()
        invariant
            i <= ps@.len(),
            all == text::pairs(args@),
            all == text::pair_views(ps@),
            f == riff_step(style::name_views(names@)),
            start == old(st)@,
            fold_pairs(f, start, all, 0) == fold_pairs(f, st@, all, i as nat),
        decreases ps@.len() - i,
    {
        assert(all[i as int] == (ps@[i as int].0@, ps@[i as int].1@));
        match read_riff_pair(st, ps[i].0, ps[i].1, names) {
            Ok(_) => {},
            Err(e) => {
                return Err(e);
            },
        }
        i += 1;
    }
    Ok(())
}

pub open spec fn riff_line(st: StyleView, args: Seq<char>) -> Result<StyleView, StyleFault> {
    match named_args(args) {
        None => Err(StyleFault::MissingName),
        Some((name, rest)) => match fold_pairs(
            riff_step(st.instr_names),
            blank_riff(name),
            text::pairs(rest),
            0,
        ) {
            Err(e) => Err(e),
            Ok(r) => Ok(StyleView { riffs: st.riffs.push(r), ..st }),
        },
    }
}

fn new_riff(name: &[char]) -> (r: Riff)
    ensures
        r@ == blank_riff(name@),
{
    let mut rhythm: Vec<bool> = Vec::new();
    for i in 0..16
        invariant
            rhythm@.len() == i,
            forall|k: int| 0 <= k < i ==> #[trigger] rhythm@[k],
    {
        rhythm.push(true);
    }
    assert(rhythm@ =~= Seq::new(16, |i: int| true));
    let r: Riff = Riff {
        name: text::string_of(name),
        rhythm,
        contour: text::string_of(text::chars_of("walk").as_slice()),
        harmony: text::string_of(text::chars_of("third").as_slice()),
        bass: text::string_of(text::chars_of("roots").as_slice()),
        lead_instr: 0,
        harm_instr: 1,
        bass_instr: 2,
        pair: 1,
        fx: None,
        octave: 5,
        accent: None,
        slide: 0,
    };
    assert(r@ =~= blank_riff(name@));
    r
}

fn read_riff_line(st: &mut Style, args: &[char]) -> (r: Result<(), StyleFault>)
    ensures
        agrees(r, final(st)@, riff_line(old(st)@, args@)),
{
    match split_name(args) {
        None => Err(StyleFault::MissingName),
        Some((name, rest)) => {
            let mut d: Riff = new_riff(name);
            match read_riff_pairs(&mut d, rest, &st.instr_names) {
                Err(e) => Err(e),
                Ok(_) => {
                    let ghost before = st.riffs@;
                    let ghost dv = d@;
                    st.riffs.push(d);
                    assert(style::riff_views(st.riffs@) =~= style::riff_views(before).push(dv));
                    Ok(())
                },
            }
        },
    }
}

// ---------------------------------------------------------------- drums

/// The first character of each word.
pub open spec fn drum_tokens(v: Seq<char>) -> Seq<char> {
    text::words(v).map_values(|w: Seq<char>| w[0])
}

pub open spec fn drums_pair(d: DrumsView, k: Seq<char>, v: Seq<char>) -> Result<
    DrumsView,
    StyleFault,
> {
    let pat = drum_tokens(v);
    if pat.len() != STEPS_PER_PHRASE {
        Err(StyleFault::DrumTokens)
    } else if k == "noi"@ {
        Ok(DrumsView { noi: pat, ..d })
    } else if k == "dpcm"@ {
        Ok(DrumsView { dpcm: pat, ..d })
    } else {
        Ok(d)
    }
}

pub open spec fn drums_step() -> spec_fn(DrumsView, Seq<char>, Seq<char>) -> Result<
    DrumsView,
    StyleFault,
> {
    |d: DrumsView, k: Seq<char>, v: Seq<char>| drums_pair(d, k, v)
}

proof fn lemma_words_not_empty(s: Seq<char>)
    ensures
        forall|i: int| 0 <= i < text::words(s).len() ==> (#[trigger] text::words(s)[i]).len() > 0,
    decreases s.len(),
{
    if s.len() > 0 {
        if text::is_ws(s[0]) {
            lemma_words_not_empty(s.skip(1));
            assert(text::words(s) == text::words(s.skip(1)));
        } else {
            text::lemma_ws_index(s);
            let k = text::ws_index(s) as int;
            let rest = text::words(s.skip(k));
            lemma_words_not_empty(s.skip(k));
            assert(text::words(s) == seq![s.take(k)] + rest);
            assert forall|i: int| 0 <= i < text::words(s).len() implies (#[trigger] text::words(
                s,
            )[i]).len() > 0 by {
                if i > 0 {
                    assert(text::words(s)[i] == rest[i - 1]);
                }
            }
        }
    }
}

fn read_drums_pair(st: &mut Drums, k: &[char], v: &[char]) -> (r: Result<(), StyleFault>)
    ensures
        agrees(r, final(st)@, drums_pair(old(st)@, k@, v@)),
{
    let ws: Vec<&[char]> = text::split_words(v);
    let ghost all = text::words(v@);
    assert(text::views(ws@).len() == ws@.len());
    let mut pat: Vec<char> = Vec::new();
    for i in 0..ws.len()
        invariant
            all == text::words(v@),
            all == text::views(ws@),
            pat@.len() == i,
            forall|j: int| 0 <= j < i ==> #[trigger] pat@[j] == all[j][0],
    {
        proof {
            lemma_words_not_empty(v@);
        }
        assert(all[i as int] == ws@[i as int]@);
        pat.push(ws[i][0]);
    }
    assert(pat@ =~= drum_tokens(v@));
    if pat.len() != STEPS_PER_PHRASE {
        return Err(StyleFault::DrumTokens);
    }
    if text::is_lit(k, "noi") {
        st.noi = pat;
    } else if text::is_lit(k, "dpcm") {
        st.dpcm = pat;
    }
    Ok(())
}

fn read_drums_pairs(st: &mut Drums, args: &[char]) -> (r: Result<(), StyleFault>)
    ensures
        agrees(
            r,
            final(st)@,
            fold_pairs(drums_step(), old(st)@, text::pairs(args@), 0),
        ),
{
    let ps: Vec<(&[char], &[char])> = text::kv(args);
    let ghost all = text::pairs(args@);
    let ghost f = drums_step();
    let ghost start = st@;
    let mut i: usize = 0;
    while i < ps.len()
        invariant
            i <= ps@.len(),
            all == text::pairs(args@),
            all == text::pair_views(ps@),
            f == drums_step(),
            start == old(st)@,
            fold_pairs(f, start, all, 0) == fold_pairs(f, st@, all, i as nat),
        decreases ps@.len() - i,
    {
        assert(all[i as int] == (ps@[i as int].0@, ps@[i as int].1@));
        match read_drums_pair(st, ps[i].0, ps[i].1) {
            Ok(_) => {},
            Err(e) => {
                return Err(e);
            },
        }
        i += 1;
    }
    Ok(())
}

pub open spec fn rests() -> Seq<char> {
    Seq::new(16, |i: int| '.')
}

pub open spec fn drums_line(st: StyleView, args: Seq<char>) -> Result<StyleView, StyleFault> {
    match named_args(args) {
        None => Err(StyleFault::MissingName),
        Some((name, rest)) => match fold_pairs(
            drums_step(),
            DrumsView { name, noi: rests(), dpcm: rests() },
            text::pairs(rest),
            0,
        ) {
            Err(e) => Err(e),
            Ok(d) => Ok(StyleView { drums: st.drums.push(d), ..st }),
        },
    }
}

fn rest_marks() -> (r: Vec<char>)
    ensures
        r@ == rests(),
{
    let mut v: Vec<char> = Vec::new();
    for i in 0..16
        invariant
            v@.len() == i,
            forall|k: int| 0 <= k < i ==> #[trigger] v@[k] == '.',
    {
        v.push('.');
    }
    assert(v@ =~= rests());
    v
}

fn read_drums_line(st: &mut Style, args: &[char]) -> (r: Result<(), StyleFault>)
    ensures
        agrees(r, final(st)@, drums_line(old(st)@, args@)),
{
    match split_name(args) {
        None => Err(StyleFault::MissingName),
        Some((name, rest)) => {
            let mut d: Drums = Drums {
                name: text::string_of(name),
                noi: rest_marks(),
                dpcm: rest_marks(),
            };
            assert(d@ =~= DrumsView { name: name@, noi: rests(), dpcm: rests() });
            match read_drums_pairs(&mut d, rest) {
                Err(e) => Err(e),
                Ok(_) => {
                    let ghost before = st.drums@;
                    let ghost dv = d@;
                    st.drums.push(d);
                    assert(style::drums_views(st.drums@) =~= style::drums_views(before).push(dv));
                    Ok(())
                },
            }
        },
    }
}

// ---------------------------------------------------------------- sections

pub open spec fn bars_value(v: Seq<char>) -> Result<Seq<usize>, StyleFault> {
    match numbers(items(v), items(v).len(), usize::MAX as nat) {
        Some(ns) => Ok(ns.map_values(|n: nat| n as usize)),
        None => Err(StyleFault::BadNumber),
    }
}

fn read_bars_value(v: &[char]) -> (r: Result<Vec<usize>, StyleFault>)
    ensures
        match r {
            Ok(b) => bars_value(v@) == Ok::<Seq<usize>, StyleFault>(b@),
            Err(e) => bars_value(v@) == Err::<Seq<usize>, StyleFault>(e),
        },
{
    let ws: Vec<&[char]> = list(v);
    assert(text::views(ws@).len() == ws@.len());
    match read_sizes(&ws) {
        Some(b) => {
            assert(b@.map_values(|n: usize| n as nat).map_values(|n: nat| n as usize) =~= b@);
            Ok(b)
        },
        None => Err(StyleFault::BadNumber),
    }
}

pub open spec fn section_pair(s: SectionView, k: Seq<char>, v: Seq<char>) -> Result<
    SectionView,
    StyleFault,
> {
    if k == "bars"@ {
        match bars_value(v) {
            Err(e) => Err(e),
            Ok(b) => Ok(SectionView { bars: b, ..s }),
        }
    } else if k == "riffs"@ {
        Ok(SectionView { riffs: items(v), ..s })
    } else if k == "drums"@ {
        Ok(SectionView { drums: items(v), ..s })
    } else if k == "repeat"@ {
        match pair_value(v) {
            Err(e) => Err(e),
            Ok(n) => Ok(SectionView { repeat: n, ..s }),
        }
    } else if k == "motif"@ {
        match odds_value(v) {
            Err(e) => Err(e),
            Ok(n) => Ok(SectionView { motif: n, ..s }),
        }
    } else if k == "end"@ {
        Ok(SectionView { crash_end: v == "crash"@, ..s })
    } else if k == "swell"@ {
        Ok(SectionView { swell: v == "1"@ || v == "on"@, ..s })
    } else {
        Ok(s)
    }
}

pub open spec fn section_step() -> spec_fn(SectionView, Seq<char>, Seq<char>) -> Result<
    SectionView,
    StyleFault,
> {
    |s: SectionView, k: Seq<char>, v: Seq<char>| section_pair(s, k, v)
}

fn read_section_pair(st: &mut Section, k: &[char], v: &[char]) -> (r: Result<(), StyleFault>)
    ensures
        agrees(r, final(st)@, section_pair(old(st)@, k@, v@)),
{
    if text::is_lit(k, "bars") {
        match read_bars_value(v) {
            Err(e) => {
                return Err(e);
            },
            Ok(b) => {
                st.bars = b;
            },
        }
    } else if text::is_lit(k, "riffs") {
        st.riffs = owned(&list(v));
    } else if text::is_lit(k, "drums") {
        st.drums = owned(&list(v));
    } else if text::is_lit(k, "repeat") {
        match read_pair_value(v) {
            Err(e) => {
                return Err(e);
            },
            Ok(n) => {
                st.repeat = n;
            },
        }
    } else if text::is_lit(k, "motif") {
        match read_odds(v) {
            Err(e) => {
                return Err(e);
            },
            Ok(n) => {
                st.motif = n;
            },
        }
    } else if text::is_lit(k, "end") {
        st.crash_end = text::is_lit(v, "crash");
    } else if text::is_lit(k, "swell") {
        st.swell = text::is_lit(v, "1") || text::is_lit(v, "on");
    }
    Ok(())
}

fn read_section_pairs(st: &mut Section, args: &[char]) -> (r: Result<(), StyleFault>)
    ensures
        agrees(
            r,
            final(st)@,
            fold_pairs(section_step(), old(st)@, text::pairs(args@), 0),
        ),
{
    let ps: Vec<(&[char], &[char])> = text::kv(args);
    let ghost all = text::pairs(args@);
    let ghost f = section_step();
    let ghost start = st@;
    let mut i: usize = 0;
    while i < ps.len()
        invariant
            i <= ps@.len(),
            all == text::pairs(args@),
            all == text::pair_views(ps@),
            f == section_step(),
            start == old(st)@,
            fold_pairs(f, start, all, 0) == fold_pairs(f, st@, all, i as nat),
        decreases ps@.len() - i,
    {
        assert(all[i as int] == (ps@[i as int].0@, ps@[i as int].1@));
        match read_section_pair(st, ps[i].0, ps[i].1) {
            Ok(_) => {},
            Err(e) => {
                return Err(e);
            },
        }
        i += 1;
    }
    Ok(())
}

pub open spec fn blank_section(name: Seq<char>) -> SectionView {
    SectionView {
        name,
        bars: seq![2usize],
        riffs: Seq::empty(),
        drums: Seq::empty(),
        repeat: 1,
        motif: 0,
        crash_end: false,
        swell: false,
    }
}

pub open spec fn section_line(st: StyleView, args: Seq<char>) -> Result<StyleView, StyleFault> {
    match named_args(args) {
        None => Err(StyleFault::MissingName),
        Some((name, rest)) => match fold_pairs(
            section_step(),
            blank_section(name),
            text::pairs(rest),
            0,
        ) {
            Err(e) => Err(e),
            Ok(s) => if s.riffs.len() == 0 {
                Err(StyleFault::SectionRiffs)
            } else {
                Ok(StyleView { sections: st.sections.push(s), ..st })
            },
        },
    }
}

fn read_section_line(st: &mut Style, args: &[char]) -> (r: Result<(), StyleFault>)
    ensures
        agrees(r, final(st)@, section_line(old(st)@, args@)),
{
    match split_name(args) {
        None => Err(StyleFault::MissingName),
        Some((name, rest)) => {
            let mut bars: Vec<usize> = Vec::new();
            bars.push(2);
            let mut s: Section = Section {
                name: text::string_of(name),
                bars,
                riffs: Vec::new(),
                drums: Vec::new(),
                repeat: 1,
                motif: 0,
                crash_end: false,
                swell: false,
            };
            assert(s@ =~= blank_section(name@));
            match read_section_pairs(&mut s, rest) {
                Err(e) => Err(e),
                Ok(_) => {
                    assert(s@.riffs.len() == s.riffs@.len());
                    if s.riffs.len() == 0 {
                        return Err(StyleFault::SectionRiffs);
                    }
                    let ghost before = st.sections@;
                    let ghost sv = s@;
                    st.sections.push(s);
                    assert(style::section_views(st.sections@) =~= style::section_views(
                        before,
                    ).push(sv));
                    Ok(())
                },
            }
        },
    }
}

// ---------------------------------------------------------------- the sample bank

pub open spec fn sample_pair(s: StyleSampleView, k: Seq<char>, v: Seq<char>) -> Result<
    StyleSampleView,
    StyleFault,
> {
    if k == "name"@ {
        Ok(StyleSampleView { name: v, ..s })
    } else if k == "path"@ || k == "file"@ {
        Ok(StyleSampleView { path: v, ..s })
    } else if k == "rate"@ {
        match text::parse_uint(v, 10, u8::MAX as nat) {
            None => Err(StyleFault::BadNumber),
            Some(n) => if n > 15 {
                Err(StyleFault::SampleRate)
            } else {
                Ok(StyleSampleView { rate: n as u8, ..s })
            },
        }
    } else if k == "token"@ {
        Ok(
            StyleSampleView {
                token: if v.len() > 0 {
                    Some(v[0])
                } else {
                    None
                },
                ..s
            },
        )
    } else {
        Ok(s)
    }
}

pub open spec fn sample_step() -> spec_fn(StyleSampleView, Seq<char>, Seq<char>) -> Result<
    StyleSampleView,
    StyleFault,
> {
    |s: StyleSampleView, k: Seq<char>, v: Seq<char>| sample_pair(s, k, v)
}

fn read_sample_pair(st: &mut StyleSample, k: &[char], v: &[char]) -> (r: Result<(), StyleFault>)
    ensures
        agrees(r, final(st)@, sample_pair(old(st)@, k@, v@)),
{
    if text::is_lit(k, "name") {
        st.name = text::string_of(v);
    } else if text::is_lit(k, "path") || text::is_lit(k, "file") {
        st.path = text::string_of(v);
    } else if text::is_lit(k, "rate") {
        match text::read_uint(v, 10, u8::MAX as u64) {
            None => {
                return Err(StyleFault::BadNumber);
            },
            Some(n) => {
                if n > 15 {
                    return Err(StyleFault::SampleRate);
                }
                st.rate = n as u8;
            },
        }
    } else if text::is_lit(k, "token") {
        st.token = if v.len() > 0 {
            Some(v[0])
        } else {
            None
        };
    }
    Ok(())
}

fn read_sample_pairs(st: &mut StyleSample, args: &[char]) -> (r: Result<(), StyleFault>)
    ensures
        agrees(
            r,
            final(st)@,
            fold_pairs(sample_step(), old(st)@, text::pairs(args@), 0),
        ),
{
    let ps: Vec<(&[char], &[char])> = text::kv(args);
    let ghost all = text::pairs(args@);
    let ghost f = sample_step();
    let ghost start = st@;
    let mut i: usize = 0;
    while i < ps.len()
        invariant
            i <= ps@.len(),
            all == text::pairs(args@),
            all == text::pair_views(ps@),
            f == sample_step(),
            start == old(st)@,
            fold_pairs(f, start, all, 0) == fold_pairs(f, st@, all, i as nat),
        decreases ps@.len() - i,
    {
        assert(all[i as int] == (ps@[i as int].0@, ps@[i as int].1@));
        match read_sample_pair(st, ps[i].0, ps[i].1) {
            Ok(_) => {},
            Err(e) => {
                return Err(e);
            },
        }
        i += 1;
    }
    Ok(())
}

pub open spec fn no_sample() -> StyleSampleView {
    StyleSampleView { name: Seq::empty(), path: Seq::empty(), rate: 15, token: None }
}

/// The bank with a sample in a slot; slots before it that do not exist yet
/// are left blank.
pub open spec fn banked(v: Seq<StyleSampleView>, idx: nat, s: StyleSampleView) -> Seq<
    StyleSampleView,
> {
    Seq::new(
        if v.len() > idx {
            v.len()
        } else {
            idx + 1
        },
        |i: int|
            if i == idx {
                s
            } else if i < v.len() {
                v[i]
            } else {
                no_sample()
            },
    )
}

pub open spec fn dpcm_line(st: StyleView, args: Seq<char>) -> Result<StyleView, StyleFault> {
    match named_args(args) {
        None => Err(StyleFault::SampleForm),
        Some((slot, rest)) => match text::parse_uint(slot, 16, usize::MAX as nat) {
            None => Err(StyleFault::BadNumber),
            Some(idx) => if idx > 63 {
                Err(StyleFault::SampleSlot)
            } else {
                match fold_pairs(
                    sample_step(),
                    StyleSampleView { name: "sample"@ + text::hex2(idx), ..no_sample() },
                    text::pairs(rest),
                    0,
                ) {
                    Err(e) => Err(e),
                    Ok(s) => if s.path.len() == 0 {
                        Err(StyleFault::SamplePath)
                    } else {
                        Ok(StyleView { samples: banked(st.samples, idx, s), ..st })
                    },
                }
            },
        },
    }
}

fn read_dpcm_line(st: &mut Style, args: &[char]) -> (r: Result<(), StyleFault>)
    ensures
        agrees(r, final(st)@, dpcm_line(old(st)@, args@)),
{
    let (slot, rest): (&[char], &[char]) = match split_name(args) {
        Some(p) => p,
        None => {
            return Err(StyleFault::SampleForm);
        },
    };
    let idx: usize = match text::read_uint(slot, 16, usize::MAX as u64) {
        Some(n) => n as usize,
        None => {
            return Err(StyleFault::BadNumber);
        },
    };
    if idx > 63 {
        return Err(StyleFault::SampleSlot);
    }
    let mut name: Vec<char> = text::chars_of("sample");
    text::put_hex2(&mut name, idx as u64);
    let mut s: StyleSample = StyleSample {
        name: text::string_of(name.as_slice()),
        path: String::new(),
        rate: 15,
        token: None,
    };
    assert(s@ =~= StyleSampleView { name: "sample"@ + text::hex2(idx as nat), ..no_sample() });
    match read_sample_pairs(&mut s, rest) {
        Ok(_) => {},
        Err(e) => {
            return Err(e);
        },
    }
    let path: Vec<char> = text::chars_of(s.path.as_str());
    if path.len() == 0 {
        return Err(StyleFault::SamplePath);
    }
    let ghost first = style::style_samples(st.samples@);
    let ghost rest_of = *st;
    assert(first.len() == st.samples@.len());
    while st.samples.len() <= idx
        invariant
            idx <= 63,
            first.len() <= st.samples@.len(),
            st.samples@.len() <= (if first.len() > idx {
                first.len() as int
            } else {
                idx + 1
            }),
            forall|i: int|
                0 <= i < st.samples@.len() ==> (#[trigger] st.samples@[i])@ == (if i
                    < first.len() {
                    first[i]
                } else {
                    no_sample()
                }),
            st@ == (StyleView { samples: style::style_samples(st.samples@), ..rest_of@ }),
        decreases 64 - st.samples@.len(),
    {
        let blank: StyleSample = StyleSample {
            name: String::new(),
            path: String::new(),
            rate: 15,
            token: None,
        };
        assert(blank@ =~= no_sample());
        st.samples.push(blank);
    }
    let ghost sv = s@;
    st.samples[idx] = s;
    assert(style::style_samples(st.samples@) =~= banked(first, idx as nat, sv));
    Ok(())
}

// ---------------------------------------------------------------- lines

pub open spec fn form_line(st: StyleView, args: Seq<char>) -> StyleView {
    StyleView { forms: st.forms.push(text::words(args)), ..st }
}

pub open spec fn motif_line(st: StyleView, args: Seq<char>) -> Result<StyleView, StyleFault> {
    match fold_words(motif_step(), Seq::empty(), text::words(args), 0) {
        Ok(m) => Ok(StyleView { motif: m, ..st }),
        Err(e) => Err(e),
    }
}

/// What a directive with its arguments makes of the style.
pub open spec fn directive(st: StyleView, dir: Seq<char>, args: Seq<char>) -> Result<
    StyleView,
    StyleFault,
> {
    if dir == "style"@ {
        fold_pairs(name_step(), st, text::pairs(args), 0)
    } else if dir == "tempo"@ {
        fold_pairs(tempo_step(), st, text::pairs(args), 0)
    } else if dir == "keys"@ {
        fold_words(key_step(), st, text::words(args), 0)
    } else if dir == "scales"@ {
        fold_words(scales_step(), st, text::words(args), 0)
    } else if dir == "scale"@ {
        scale_line(st, args)
    } else if dir == "progression"@ {
        progression_line(st, args)
    } else if dir == "instr"@ {
        instr_line(st, args)
    } else if dir == "riff"@ {
        riff_line(st, args)
    } else if dir == "drums"@ {
        drums_line(st, args)
    } else if dir == "section"@ {
        section_line(st, args)
    } else if dir == "dpcm"@ {
        dpcm_line(st, args)
    } else if dir == "form"@ {
        Ok(form_line(st, args))
    } else if dir == "motif"@ {
        motif_line(st, args)
    } else if dir == "title"@ {
        fold_pairs(title_step(), st, text::pairs(args), 0)
    } else if dir == "noise"@ {
        fold_pairs(noise_step(), st, text::pairs(args), 0)
    } else {
        Err(StyleFault::UnknownDirective)
    }
}

fn read_motif_line(st: &mut Style, args: &[char]) -> (r: Result<(), StyleFault>)
    ensures
        agrees(r, final(st)@, motif_line(old(st)@, args@)),
{
    let mut m: Vec<i32> = Vec::new();
    match read_motif_words(&mut m, args) {
        Ok(_) => {
            st.motif = m;
            Ok(())
        },
        Err(e) => Err(e),
    }
}

fn read_form_line(st: &mut Style, args: &[char])
    ensures
        final(st)@ == form_line(old(st)@, args@),
{
    let ghost before = st.forms@;
    let f: Vec<String> = owned(&text::split_words(args));
    let ghost fv = text::texts(f@);
    st.forms.push(f);
    assert(style::form_views(st.forms@) =~= style::form_views(before).push(fv));
}

fn read_directive(st: &mut Style, dir: &[char], args: &[char]) -> (r: Result<(), StyleFault>)
    ensures
        agrees(r, final(st)@, directive(old(st)@, dir@, args@)),
{
    if text::is_lit(dir, "style") {
        read_name_pairs(st, args)
    } else if text::is_lit(dir, "tempo") {
        read_tempo_pairs(st, args)
    } else if text::is_lit(dir, "keys") {
        read_key_words(st, args)
    } else if text::is_lit(dir, "scales") {
        read_scales_words(st, args)
    } else if text::is_lit(dir, "scale") {
        read_scale_line(st, args)
    } else if text::is_lit(dir, "progression") {
        read_progression_line(st, args)
    } else if text::is_lit(dir, "instr") {
        read_instr_line(st, args)
    } else if text::is_lit(dir, "riff") {
        read_riff_line(st, args)
    } else if text::is_lit(dir, "drums") {
        read_drums_line(st, args)
    } else if text::is_lit(dir, "section") {
        read_section_line(st, args)
    } else if text::is_lit(dir, "dpcm") {
        read_dpcm_line(st, args)
    } else if text::is_lit(dir, "form") {
        read_form_line(st, args);
        Ok(())
    } else if text::is_lit(dir, "motif") {
        read_motif_line(st, args)
    } else if text::is_lit(dir, "title") {
        read_title_pairs(st, args)
    } else if text::is_lit(dir, "noise") {
        read_noise_pairs(st, args)
    } else {
        Err(StyleFault::UnknownDirective)
    }
}

/// What a line makes of the style. Comments and blank lines change nothing.
pub open spec fn line_step(st: StyleView, raw: Seq<char>) -> Result<StyleView, StyleFault> {
    let line = text::trim(text::uncomment(raw));
    if line.len() == 0 {
        Ok(st)
    } else if line[0] != '@' {
        Err(StyleFault::NotADirective)
    } else {
        let body = line.skip(1);
        match named_args(body) {
            Some((dir, args)) => directive(st, dir, args),
            None => directive(st, body, Seq::empty()),
        }
    }
}

pub(crate) fn read_line(st: &mut Style, raw: &[char]) -> (r: Result<(), StyleFault>)
    ensures
        agrees(r, final(st)@, line_step(old(st)@, raw@)),
{
    let line: &[char] = text::trimmed(text::strip_comment(raw));
    if line.len() == 0 {
        return Ok(());
    }
    if line[0] != '@' {
        return Err(StyleFault::NotADirective);
    }
    let body: &[char] = text::tail(line, 1);
    match split_name(body) {
        Some((dir, args)) => read_directive(st, dir, args),
        None => {
            let none: &[char] = text::head(body, 0);
            assert(none@ =~= Seq::empty());
            read_directive(st, body, none)
        },
    }
}

/// The style after the lines from `i` on.
pub open spec fn run_lines(st: StyleView, ls: Seq<Seq<char>>, i: nat) -> Result<
    StyleView,
    StyleError,
>
    decreases ls.len() - i,
{
    if i >= ls.len() {
        Ok(st)
    } else {
        match line_step(st, ls[i as int]) {
            Ok(t) => run_lines(t, ls, i + 1),
            Err(fault) => Err(StyleError { line: (i + 1) as usize, fault }),
        }
    }
}

// ---------------------------------------------------------------- validity

/// The name of a form token and the semitones it is moved by: `chorus+3`.
pub open spec fn transposed(tok: Seq<char>) -> (Seq<char>, int) {
    let k = sign_index(tok);
    if k < tok.len() {
        (
            tok.take(k as int),
            match text::parse_int(tok.skip(k as int), 0x8000_0000, i32::MAX as nat) {
                Some(n) => n,
                None => 0,
            },
        )
    } else {
        (tok, 0)
    }
}

/// Where the first sign stands, or the length.
pub open spec fn sign_index(s: Seq<char>) -> nat
    decreases s.len(),
{
    if s.len() == 0 || s[0] == '+' || s[0] == '-' {
        0
    } else {
        1 + sign_index(s.skip(1))
    }
}

fn find_sign(s: &[char]) -> (r: usize)
    ensures
        r == sign_index(s@),
        r <= s@.len(),
{
    let mut i: usize = 0;
    assert(s@.skip(0) =~= s@);
    while i < s.len() && s[i] != '+' && s[i] != '-'
        invariant
            i <= s@.len(),
            sign_index(s@) == i + sign_index(s@.skip(i as int)),
        decreases s@.len() - i,
    {
        assert(s@.skip(i as int).skip(1) =~= s@.skip(i + 1));
        i += 1;
    }
    i
}

pub fn read_transpose<'a>(tok: &'a [char]) -> (r: (&'a [char], i32))
    ensures
        (r.0@, r.1 as int) == transposed(tok@),
{
    let k: usize = find_sign(tok);
    if k < tok.len() {
        let n: i32 = match text::read_int(text::tail(tok, k), 0x8000_0000, i32::MAX as u32) {
            Some(n) => n as i32,
            None => 0,
        };
        (text::head(tok, k), n)
    } else {
        (tok, 0)
    }
}

/// Splits a form token into a section name and a transposition.
pub fn split_transpose(tok: &str) -> (r: (String, i32))
    ensures
        (r.0@, r.1 as int) == transposed(tok@),
{
    let v: Vec<char> = text::chars_of(tok);
    let (name, n): (&[char], i32) = read_transpose(v.as_slice());
    (text::string_of(name), n)
}

pub open spec fn has_section(st: StyleView, name: Seq<char>) -> bool {
    exists|i: int| 0 <= i < st.sections.len() && (#[trigger] st.sections[i]).name == name
}

pub open spec fn has_riff(st: StyleView, name: Seq<char>) -> bool {
    exists|i: int| 0 <= i < st.riffs.len() && (#[trigger] st.riffs[i]).name == name
}

pub open spec fn has_drums(st: StyleView, name: Seq<char>) -> bool {
    exists|i: int| 0 <= i < st.drums.len() && (#[trigger] st.drums[i]).name == name
}

/// Whether every sample token of a drum pattern triggers something.
pub open spec fn tokens_mapped(st: StyleView, d: DrumsView) -> bool {
    forall|j: int|
        0 <= j < d.dpcm.len() && #[trigger] d.dpcm[j] != '.' ==> style::token_note(
            st.samples,
            d.dpcm[j],
        ) is Some
}

pub open spec fn form_known(st: StyleView, f: Seq<Seq<char>>) -> bool {
    forall|j: int| 0 <= j < f.len() ==> has_section(st, transposed(#[trigger] f[j]).0)
}

pub open spec fn riffs_known(st: StyleView, s: SectionView) -> bool {
    forall|j: int| 0 <= j < s.riffs.len() ==> has_riff(st, #[trigger] s.riffs[j])
}

pub open spec fn drums_known(st: StyleView, s: SectionView) -> bool {
    forall|j: int| 0 <= j < s.drums.len() ==> has_drums(st, #[trigger] s.drums[j])
}

/// The first section from `i` on that names something unknown.
pub open spec fn section_fault(st: StyleView, i: nat) -> Option<StyleFault>
    decreases st.sections.len() - i,
{
    if i >= st.sections.len() {
        None
    } else if !riffs_known(st, st.sections[i as int]) {
        Some(StyleFault::UnknownRiff)
    } else if !drums_known(st, st.sections[i as int]) {
        Some(StyleFault::UnknownDrums)
    } else {
        section_fault(st, i + 1)
    }
}

/// What makes a style unusable as a whole.
pub open spec fn style_fault(st: StyleView) -> Option<StyleFault> {
    if st.keys.len() == 0 {
        Some(StyleFault::NoKeys)
    } else if !(forall|i: int|
        0 <= i < st.samples.len() ==> (#[trigger] st.samples[i]).path.len() > 0) {
        Some(StyleFault::MissingSample)
    } else if !(forall|i: int|
        0 <= i < st.drums.len() ==> tokens_mapped(st, #[trigger] st.drums[i])) {
        Some(StyleFault::UnmappedToken)
    } else if st.scales.len() == 0 {
        Some(StyleFault::NoScales)
    } else if st.progressions.len() == 0 {
        Some(StyleFault::NoProgressions)
    } else if st.riffs.len() == 0 {
        Some(StyleFault::NoRiffs)
    } else if st.drums.len() == 0 {
        Some(StyleFault::NoDrums)
    } else if st.sections.len() == 0 {
        Some(StyleFault::NoSections)
    } else if st.forms.len() == 0 {
        Some(StyleFault::NoForms)
    } else if st.tempo_min == 0 || st.tempo_max < st.tempo_min {
        Some(StyleFault::TempoRange)
    } else if !(forall|i: int| 0 <= i < st.forms.len() ==> form_known(st, #[trigger] st.forms[i])) {
        Some(StyleFault::UnknownSection)
    } else {
        section_fault(st, 0)
    }
}

/// The style that a text describes.
pub open spec fn parse_style(s: Seq<char>) -> Result<StyleView, StyleError> {
    match run_lines(style::blank_style(), text::lines(s), 0) {
        Err(e) => Err(e),
        Ok(st) => match style_fault(st) {
            Some(fault) => Err(StyleError { line: 0, fault }),
            None => Ok(st),
        },
    }
}

impl Style {
    pub fn find_section(&self, name: &[char]) -> (r: Option<usize>)
        ensures
            match r {
                Some(i) => i < self.sections@.len() && self@.sections[i as int].name == name@
                    && forall|k: int|
                    0 <= k < i ==> (#[trigger] self@.sections[k]).name != name@,
                None => !has_section(self@, name@),
            },
    {
        let ghost all = self@.sections;
        let mut i: usize = 0;
        while i < self.sections.len()
            invariant
                i <= self.sections@.len(),
                all == style::section_views(self.sections@),
                forall|k: int| 0 <= k < i ==> (#[trigger] all[k]).name != name@,
            decreases self.sections@.len() - i,
        {
            assert(all[i as int].name == self.sections@[i as int].name@);
            if text::is_lit(name, self.sections[i].name.as_str()) {
                return Some(i);
            }
            i += 1;
        }
        None
    }

    pub fn find_riff(&self, name: &[char]) -> (r: Option<usize>)
        ensures
            match r {
                Some(i) => i < self.riffs@.len() && self@.riffs[i as int].name == name@
                    && forall|k: int| 0 <= k < i ==> (#[trigger] self@.riffs[k]).name != name@,
                None => !has_riff(self@, name@),
            },
    {
        let ghost all = self@.riffs;
        let mut i: usize = 0;
        while i < self.riffs.len()
            invariant
                i <= self.riffs@.len(),
                all == style::riff_views(self.riffs@),
                forall|k: int| 0 <= k < i ==> (#[trigger] all[k]).name != name@,
            decreases self.riffs@.len() - i,
        {
            assert(all[i as int].name == self.riffs@[i as int].name@);
            if text::is_lit(name, self.riffs[i].name.as_str()) {
                return Some(i);
            }
            i += 1;
        }
        None
    }

    pub fn find_drums(&self, name: &[char]) -> (r: Option<usize>)
        ensures
            match r {
                Some(i) => i < self.drums@.len() && self@.drums[i as int].name == name@
                    && forall|k: int| 0 <= k < i ==> (#[trigger] self@.drums[k]).name != name@,
                None => !has_drums(self@, name@),
            },
    {
        let ghost all = self@.drums;
        let mut i: usize = 0;
        while i < self.drums.len()
            invariant
                i <= self.drums@.len(),
                all == style::drums_views(self.drums@),
                forall|k: int| 0 <= k < i ==> (#[trigger] all[k]).name != name@,
            decreases self.drums@.len() - i,
        {
            assert(all[i as int].name == self.drums@[i as int].name@);
            if text::is_lit(name, self.drums[i].name.as_str()) {
                return Some(i);
            }
            i += 1;
        }
        None
    }

    fn maps_tokens(&self, d: &Drums) -> (r: bool)
        ensures
            r == tokens_mapped(self@, d@),
    {
        assert(self@.samples.len() == self.samples@.len());
        let mut j: usize = 0;
        while j < d.dpcm.len()
            invariant
                j <= d.dpcm@.len(),
                self@.samples.len() == self.samples@.len(),
                forall|k: int|
                    0 <= k < j && #[trigger] d.dpcm@[k] != '.' ==> style::token_note(
                        self@.samples,
                        d.dpcm@[k],
                    ) is Some,
            decreases d.dpcm@.len() - j,
        {
            let c: char = d.dpcm[j];
            if c != '.' {
                let known: bool = if self.samples.len() == 0 {
                    c == 'k' || c == 's' || c == 't'
                } else {
                    self.slot_of(c).is_some()
                };
                if !known {
                    assert(style::token_note(self@.samples, d@.dpcm[j as int]) is None);
                    return false;
                }
            }
            j += 1;
        }
        true
    }

    fn knows_form(&self, f: &Vec<String>) -> (r: bool)
        ensures
            r == form_known(self@, text::texts(f@)),
    {
        let ghost all = text::texts(f@);
        let mut j: usize = 0;
        while j < f.len()
            invariant
                j <= f@.len(),
                all == text::texts(f@),
                forall|k: int|
                    0 <= k < j ==> has_section(self@, transposed(#[trigger] all[k]).0),
            decreases f@.len() - j,
        {
            assert(all[j as int] == f@[j as int]@);
            let tok: Vec<char> = text::chars_of(f[j].as_str());
            let (name, _): (&[char], i32) = read_transpose(tok.as_slice());
            if self.find_section(name).is_none() {
                return false;
            }
            j += 1;
        }
        true
    }

    fn knows_riffs(&self, s: &Section) -> (r: bool)
        ensures
            r == riffs_known(self@, s@),
    {
        let ghost all = s@.riffs;
        let mut j: usize = 0;
        while j < s.riffs.len()
            invariant
                j <= s.riffs@.len(),
                all == text::texts(s.riffs@),
                all == s@.riffs,
                forall|k: int| 0 <= k < j ==> has_riff(self@, #[trigger] all[k]),
            decreases s.riffs@.len() - j,
        {
            assert(all[j as int] == s.riffs@[j as int]@);
            let name: Vec<char> = text::chars_of(s.riffs[j].as_str());
            if self.find_riff(name.as_slice()).is_none() {
                return false;
            }
            j += 1;
        }
        true
    }

    fn knows_drums(&self, s: &Section) -> (r: bool)
        ensures
            r == drums_known(self@, s@),
    {
        let ghost all = s@.drums;
        let mut j: usize = 0;
        while j < s.drums.len()
            invariant
                j <= s.drums@.len(),
                all == text::texts(s.drums@),
                all == s@.drums,
                forall|k: int| 0 <= k < j ==> has_drums(self@, #[trigger] all[k]),
            decreases s.drums@.len() - j,
        {
            assert(all[j as int] == s.drums@[j as int]@);
            let name: Vec<char> = text::chars_of(s.drums[j].as_str());
            if self.find_drums(name.as_slice()).is_none() {
                return false;
            }
            j += 1;
        }
        true
    }

    fn check_samples(&self) -> (r: bool)
        ensures
            r == forall|i: int|
                0 <= i < self@.samples.len() ==> (#[trigger] self@.samples[i]).path.len() > 0,
    {
        let ghost all = self@.samples;
        let mut i: usize = 0;
        while i < self.samples.len()
            invariant
                i <= self.samples@.len(),
                all == style::style_samples(self.samples@),
                all == self@.samples,
                forall|k: int| 0 <= k < i ==> (#[trigger] all[k]).path.len() > 0,
            decreases self.samples@.len() - i,
        {
            assert(all[i as int].path == self.samples@[i as int].path@);
            if text::chars_of(self.samples[i].path.as_str()).len() == 0 {
                return false;
            }
            i += 1;
        }
        true
    }

    fn check_tokens(&self) -> (r: bool)
        ensures
            r == forall|i: int|
                0 <= i < self@.drums.len() ==> tokens_mapped(self@, #[trigger] self@.drums[i]),
    {
        let ghost all = self@.drums;
        let mut i: usize = 0;
        while i < self.drums.len()
            invariant
                i <= self.drums@.len(),
                all == style::drums_views(self.drums@),
                all == self@.drums,
                forall|k: int| 0 <= k < i ==> tokens_mapped(self@, #[trigger] all[k]),
            decreases self.drums@.len() - i,
        {
            assert(all[i as int] == self.drums@[i as int]@);
            if !self.maps_tokens(&self.drums[i]) {
                return false;
            }
            i += 1;
        }
        true
    }

    fn check_forms(&self) -> (r: bool)
        ensures
            r == forall|i: int|
                0 <= i < self@.forms.len() ==> form_known(self@, #[trigger] self@.forms[i]),
    {
        let ghost all = self@.forms;
        let mut i: usize = 0;
        while i < self.forms.len()
            invariant
                i <= self.forms@.len(),
                all == style::form_views(self.forms@),
                all == self@.forms,
                forall|k: int| 0 <= k < i ==> form_known(self@, #[trigger] all[k]),
            decreases self.forms@.len() - i,
        {
            assert(all[i as int] == text::texts(self.forms@[i as int]@));
            if !self.knows_form(&self.forms[i]) {
                return false;
            }
            i += 1;
        }
        true
    }

    /// What makes the style unusable, if anything does.
    pub fn validate(&self) -> (r: Option<StyleFault>)
        ensures
            r == style_fault(self@),
    {
        proof {
            assert(self@.scales.len() == self.scales@.len());
            assert(self@.progressions.len() == self.progressions@.len());
            assert(self@.riffs.len() == self.riffs@.len());
            assert(self@.drums.len() == self.drums@.len());
            assert(self@.sections.len() == self.sections@.len());
            assert(self@.forms.len() == self.forms@.len());
        }
        if self.keys.len() == 0 {
            return Some(StyleFault::NoKeys);
        }
        if !self.check_samples() {
            return Some(StyleFault::MissingSample);
        }
        if !self.check_tokens() {
            return Some(StyleFault::UnmappedToken);
        }
        if self.scales.len() == 0 {
            return Some(StyleFault::NoScales);
        }
        if self.progressions.len() == 0 {
            return Some(StyleFault::NoProgressions);
        }
        if self.riffs.len() == 0 {
            return Some(StyleFault::NoRiffs);
        }
        if self.drums.len() == 0 {
            return Some(StyleFault::NoDrums);
        }
        if self.sections.len() == 0 {
            return Some(StyleFault::NoSections);
        }
        if self.forms.len() == 0 {
            return Some(StyleFault::NoForms);
        }
        if self.tempo_min == 0 || self.tempo_max < self.tempo_min {
            return Some(StyleFault::TempoRange);
        }
        if !self.check_forms() {
            return Some(StyleFault::UnknownSection);
        }
        let mut i: usize = 0;
        while i < self.sections.len()
            invariant
                i <= self.sections@.len(),
                self@.sections.len() == self.sections@.len(),
                section_fault(self@, 0) == section_fault(self@, i as nat),
                style_fault(self@) == section_fault(self@, 0),
            decreases self.sections@.len() - i,
        {
            assert(self@.sections[i as int] == self.sections@[i as int]@);
            if !self.knows_riffs(&self.sections[i]) {
                return Some(StyleFault::UnknownRiff);
            }
            if !self.knows_drums(&self.sections[i]) {
                return Some(StyleFault::UnknownDrums);
            }
            i += 1;
        }
        None
    }

    /// Reads a style.
    pub fn parse(source: &str) -> (r: Result<Style, StyleError>)
        ensures
            match r {
                Ok(st) => parse_style(source@) == Ok::<StyleView, StyleError>(st@),
                Err(e) => parse_style(source@) == Err::<StyleView, StyleError>(e),
            },
    {
        let chars: Vec<char> = text::chars_of(source);
        let ls: Vec<&[char]> = text::split_lines(chars.as_slice());
        let ghost all = text::lines(source@);
        let mut st: Style = Style::blank();
        let mut i: usize = 0;
        while i < ls.len()
            invariant
                i <= ls@.len(),
                all == text::lines(source@),
                all == text::views(ls@),
                run_lines(style::blank_style(), all, 0) == run_lines(st@, all, i as nat),
            decreases ls@.len() - i,
        {
            assert(all[i as int] == ls@[i as int]@);
            match read_line(&mut st, ls[i]) {
                Ok(_) => {},
                Err(fault) => {
                    return Err(StyleError { line: i + 1, fault });
                },
            }
            i += 1;
        }
        assert(all.len() == ls@.len());
        match st.validate() {
            Some(fault) => Err(StyleError { line: 0, fault }),
            None => Ok(st),
        }
    }
}

/// A fault in words.
pub open spec fn fault_text(f: StyleFault) -> Seq<char> {
    match f {
        StyleFault::NotADirective => "expected an @directive"@,
        StyleFault::UnknownDirective => "unknown directive"@,
        StyleFault::BadNumber => "bad number"@,
        StyleFault::BadKey => "bad key"@,
        StyleFault::UnknownScale => "unknown scale (define it with @scale first)"@,
        StyleFault::MissingName => "missing name"@,
        StyleFault::ScaleStart => "scale must start at 0"@,
        StyleFault::BadChord => "bad chord"@,
        StyleFault::EmptyProgression => "empty progression"@,
        StyleFault::InstrumentRange => "instrument out of range"@,
        StyleFault::RhythmLength => "rhythm must be 16 chars"@,
        StyleFault::UnknownInstrument => "unknown instrument"@,
        StyleFault::AccentLength => "accent wants two hex digits (on-beat, off-beat)"@,
        StyleFault::BadAccent => "bad accent"@,
        StyleFault::DrumTokens => "drums need 16 tokens"@,
        StyleFault::SectionRiffs => "section needs riffs="@,
        StyleFault::SampleForm => "want NN name= path= [rate=] [token=]"@,
        StyleFault::SampleSlot => "slot out of range (max 3F)"@,
        StyleFault::SampleRate => "rate out of range 0..=15"@,
        StyleFault::SamplePath => "needs path="@,
        StyleFault::NoiseForm => "want NOTE/INSTR"@,
        StyleFault::BadNote => "bad note"@,
        StyleFault::NoKeys => "style has no @keys"@,
        StyleFault::MissingSample => "a @dpcm slot is missing (slots must be contiguous)"@,
        StyleFault::UnmappedToken => "@drums uses a DPCM token with no @dpcm token= for it"@,
        StyleFault::NoScales => "style has no @scales"@,
        StyleFault::NoProgressions => "style has no @progression"@,
        StyleFault::NoRiffs => "style has no @riff"@,
        StyleFault::NoDrums => "style has no @drums"@,
        StyleFault::NoSections => "style has no @section"@,
        StyleFault::NoForms => "style has no @form"@,
        StyleFault::TempoRange => "bad @tempo range"@,
        StyleFault::UnknownSection => "@form references an unknown section"@,
        StyleFault::UnknownRiff => "section references an unknown riff"@,
        StyleFault::UnknownDrums => "section references unknown drums"@,
    }
}

/// A fault in words.
pub(crate) fn plain_words(f: StyleFault) -> (r: &'static str)
    ensures
        r@ == fault_text(f),
{
    match f {
        StyleFault::NotADirective => "expected an @directive",
        StyleFault::UnknownDirective => "unknown directive",
        StyleFault::BadNumber => "bad number",
        StyleFault::BadKey => "bad key",
        StyleFault::UnknownScale => "unknown scale (define it with @scale first)",
        StyleFault::MissingName => "missing name",
        StyleFault::ScaleStart => "scale must start at 0",
        StyleFault::BadChord => "bad chord",
        StyleFault::EmptyProgression => "empty progression",
        StyleFault::InstrumentRange => "instrument out of range",
        StyleFault::RhythmLength => "rhythm must be 16 chars",
        StyleFault::UnknownInstrument => "unknown instrument",
        StyleFault::AccentLength => "accent wants two hex digits (on-beat, off-beat)",
        StyleFault::BadAccent => "bad accent",
        StyleFault::DrumTokens => "drums need 16 tokens",
        StyleFault::SectionRiffs => "section needs riffs=",
        StyleFault::SampleForm => "want NN name= path= [rate=] [token=]",
        StyleFault::SampleSlot => "slot out of range (max 3F)",
        StyleFault::SampleRate => "rate out of range 0..=15",
        StyleFault::SamplePath => "needs path=",
        StyleFault::NoiseForm => "want NOTE/INSTR",
        StyleFault::BadNote => "bad note",
        StyleFault::NoKeys => "style has no @keys",
        StyleFault::MissingSample => "a @dpcm slot is missing (slots must be contiguous)",
        StyleFault::UnmappedToken => "@drums uses a DPCM token with no @dpcm token= for it",
        StyleFault::NoScales => "style has no @scales",
        StyleFault::NoProgressions => "style has no @progression",
        StyleFault::NoRiffs => "style has no @riff",
        StyleFault::NoDrums => "style has no @drums",
        StyleFault::NoSections => "style has no @section",
        StyleFault::NoForms => "style has no @form",
        StyleFault::TempoRange => "bad @tempo range",
        StyleFault::UnknownSection => "@form references an unknown section",
        StyleFault::UnknownRiff => "section references an unknown riff",
        StyleFault::UnknownDrums => "section references unknown drums",
    }
}

impl StyleError {
    /// The fault in words, with its line where it has one.
    pub fn message(&self) -> (r: String)
        ensures
            r@ == (if self.line == 0 {
                fault_text(self.fault)
            } else {
                "line "@ + text::dec(self.line as nat) + ": "@ + fault_text(self.fault)
            }),
    {
        let words: &'static str = plain_words(self.fault);
        if self.line == 0 {
            return text::string_of(text::chars_of(words).as_slice());
        }
        let mut m: Vec<char> = text::chars_of("line ");
        text::put_dec(&mut m, self.line as u64);
        text::put_str(&mut m, ": ");
        text::put_str(&mut m, words);
        text::string_of(m.as_slice())
    }
}

} // verus!
