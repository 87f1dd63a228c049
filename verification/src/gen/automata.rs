//! Lindenmayer systems and elementary cellular automata, as music.

use vstd::prelude::*;

use crate::gen;
use crate::gen::chord;
use crate::gen::odds;
use crate::gen::patterns;
use crate::gen::{Channel, Mode, Rng};
use crate::song;
use crate::song::{Cell, Phrase, Song, CHANNELS, STEPS_PER_PHRASE};
use crate::text;

verus! {

// ---------------------------------------------------------------- rewrite rules

/// What is wrong with a list of rules or of mapped notes. Entries are
/// counted between commas.
#[derive(Clone, Copy, Debug, PartialEq, Eq, Structural)]
pub enum ListFault {
    NoEquals(usize),
    /// The left side is not one character.
    LeftSide(usize),
    BadNote(usize),
    Empty,
}

/// An entry `X=...`: the one character on its left and the text on its right.
pub open spec fn entry(part: Seq<char>, i: usize) -> Result<(char, Seq<char>), ListFault> {
    match text::cut_word(part) {
        None => Err(ListFault::NoEquals(i)),
        Some((k, v)) => {
            let k = text::trim(k);
            if k.len() == 1 {
                Ok((k[0], text::trim(v)))
            } else {
                Err(ListFault::LeftSide(i))
            }
        },
    }
}

fn read_entry<'a>(part: &'a [char], i: usize) -> (r: Result<(char, &'a [char]), ListFault>)
    ensures
        match r {
            Ok((c, v)) => entry(part@, i) == Ok::<(char, Seq<char>), ListFault>((c, v@)),
            Err(e) => entry(part@, i) == Err::<(char, Seq<char>), ListFault>(e),
        },
{
    match text::split_at_eq(part) {
        None => Err(ListFault::NoEquals(i)),
        Some((k, v)) => {
            let k: &[char] = text::trimmed(k);
            if k.len() == 1 {
                Ok((k[0], text::trimmed(v)))
            } else {
                Err(ListFault::LeftSide(i))
            }
        },
    }
}

/// Rules read from the parts from `i` on, after those in `acc`.
pub open spec fn rules_from(
    acc: Seq<(char, Seq<char>)>,
    ps: Seq<Seq<char>>,
    i: nat,
) -> Result<Seq<(char, Seq<char>)>, ListFault>
    decreases ps.len() - i,
{
    if i >= ps.len() {
        if acc.len() == 0 {
            Err(ListFault::Empty)
        } else {
            Ok(acc)
        }
    } else {
        let part = text::trim(ps[i as int]);
        if part.len() == 0 {
            rules_from(acc, ps, i + 1)
        } else {
            match entry(part, i as usize) {
                Ok(r) => rules_from(acc.push(r), ps, i + 1),
                Err(e) => Err(e),
            }
        }
    }
}

/// The rewrite rules of a text such as `A=ABA,B=.A.`.
pub open spec fn rules_of(s: Seq<char>) -> Result<Seq<(char, Seq<char>)>, ListFault> {
    rules_from(Seq::empty(), text::pieces(s, ','), 0)
}

pub open spec fn rule_views(v: Seq<(char, String)>) -> Seq<(char, Seq<char>)> {
    v.map_values(|r: (char, String)| (r.0, r.1@))
}

pub fn read_rules(s: &[char]) -> (r: Result<Vec<(char, String)>, ListFault>)
    ensures
        match r {
            Ok(v) => rules_of(s@) == Ok::<Seq<(char, Seq<char>)>, ListFault>(rule_views(v@)),
            Err(e) => rules_of(s@) == Err::<Seq<(char, Seq<char>)>, ListFault>(e),
        },
{
    let ps: Vec<&[char]> = text::split_on(s, ',');
    let ghost all = text::views(ps@);
    let mut out: Vec<(char, String)> = Vec::new();
    assert(rule_views(out@) =~= Seq::<(char, Seq<char>)>::empty());
    let mut i: usize = 0;
    while i < ps.len()
        invariant
            i <= ps@.len(),
            all == text::views(ps@),
            rules_of(s@) == rules_from(rule_views(out@), all, i as nat),
        decreases ps@.len() - i,
    {
        assert(all[i as int] == ps@[i as int]@);
        let part: &[char] = text::trimmed(ps[i]);
        if part.len() > 0 {
            match read_entry(part, i) {
                Ok((c, v)) => {
                    let ghost before = out@;
                    let t: String = text::string_of(v);
                    out.push((c, t));
                    assert(rule_views(out@) =~= rule_views(before).push((c, t@)));
                },
                Err(e) => {
                    return Err(e);
                },
            }
        }
        i += 1;
    }
    assert(rule_views(out@).len() == out@.len());
    if out.len() == 0 {
        return Err(ListFault::Empty);
    }
    Ok(out)
}

/// Parses rewrite rules such as `A=ABA,B=.A.`.
pub fn parse_rules(s: &str) -> (r: Result<Vec<(char, String)>, ListFault>)
    ensures
        match r {
            Ok(v) => rules_of(s@) == Ok::<Seq<(char, Seq<char>)>, ListFault>(rule_views(v@)),
            Err(e) => rules_of(s@) == Err::<Seq<(char, Seq<char>)>, ListFault>(e),
        },
{
    let v: Vec<char> = text::chars_of(s);
    read_rules(v.as_slice())
}

/// What a symbol is rewritten to: the right side of the first rule for it,
/// from `i` on, or itself.
pub open spec fn rewritten(rules: Seq<(char, Seq<char>)>, c: char, i: nat) -> Seq<char>
    decreases rules.len() - i,
{
    if i >= rules.len() {
        seq![c]
    } else if rules[i as int].0 == c {
        rules[i as int].1
    } else {
        rewritten(rules, c, i + 1)
    }
}

/// The most symbols that a generation holds.
pub const MAX_SYMBOLS: usize = 4096;

/// The rest of a generation rewritten after `acc`, as far as it has room.
pub open spec fn rewrite_from(
    acc: Seq<char>,
    rest: Seq<char>,
    rules: Seq<(char, Seq<char>)>,
) -> Seq<char>
    decreases rest.len(),
{
    if rest.len() == 0 {
        acc
    } else {
        let next = acc + rewritten(rules, rest[0], 0);
        if next.len() >= MAX_SYMBOLS {
            next.take(MAX_SYMBOLS as int)
        } else {
            rewrite_from(next, rest.skip(1), rules)
        }
    }
}

/// A text after `n` generations.
pub open spec fn expanded(s: Seq<char>, rules: Seq<(char, Seq<char>)>, n: nat) -> Seq<char>
    decreases n,
{
    if n == 0 {
        s
    } else {
        expanded(rewrite_from(Seq::empty(), s, rules), rules, (n - 1) as nat)
    }
}

/// However long its rules, an L-system that has been rewritten holds no more
/// symbols than there is room for.
pub proof fn law_growth_is_capped(s: Seq<char>, rules: Seq<(char, Seq<char>)>, n: nat)
    requires
        n >= 1,
    ensures
        expanded(s, rules, n).len() <= MAX_SYMBOLS,
    decreases n,
{
    let next = rewrite_from(Seq::empty(), s, rules);
    lemma_rewrite_capped(Seq::empty(), s, rules);
    if n == 1 {
        assert(expanded(next, rules, 0) == next);
    } else {
        law_growth_is_capped(next, rules, (n - 1) as nat);
    }
}

proof fn lemma_rewrite_capped(acc: Seq<char>, rest: Seq<char>, rules: Seq<(char, Seq<char>)>)
    requires
        acc.len() <= MAX_SYMBOLS,
    ensures
        rewrite_from(acc, rest, rules).len() <= MAX_SYMBOLS,
    decreases rest.len(),
{
    if rest.len() > 0 {
        let next = acc + rewritten(rules, rest[0], 0);
        if next.len() < MAX_SYMBOLS {
            lemma_rewrite_capped(next, rest.skip(1), rules);
        }
    }
}

fn put_rewritten(out: &mut Vec<char>, rules: &[(char, String)], c: char)
    ensures
        final(out)@ == old(out)@ + rewritten(rule_views(rules@), c, 0),
{
    let ghost model = rule_views(rules@);
    let mut i: usize = 0;
    while i < rules.len()
        invariant
            i <= rules@.len(),
            model == rule_views(rules@),
            out@ == old(out)@,
            rewritten(model, c, 0) == rewritten(model, c, i as nat),
        decreases rules@.len() - i,
    {
        assert(model[i as int] == (rules@[i as int].0, rules@[i as int].1@));
        if rules[i].0 == c {
            text::put_str(out, rules[i].1.as_str());
            return;
        }
        i += 1;
    }
    let ghost before = out@;
    out.push(c);
    assert(out@ =~= before + seq![c]);
}

fn rewrite(cur: &Vec<char>, rules: &[(char, String)]) -> (r: Vec<char>)
    ensures
        r@ == rewrite_from(Seq::empty(), cur@, rule_views(rules@)),
{
    let ghost model = rule_views(rules@);
    let mut next: Vec<char> = Vec::new();
    let mut i: usize = 0;
    assert(cur@.skip(0) =~= cur@);
    while i < cur.len()
        invariant
            i <= cur@.len(),
            model == rule_views(rules@),
            rewrite_from(Seq::empty(), cur@, model) == rewrite_from(
                next@,
                cur@.skip(i as int),
                model,
            ),
        decreases cur@.len() - i,
    {
        assert(cur@.skip(i as int).skip(1) =~= cur@.skip(i + 1));
        put_rewritten(&mut next, rules, cur[i]);
        if next.len() >= MAX_SYMBOLS {
            return text::copy_of(text::head(next.as_slice(), MAX_SYMBOLS));
        }
        i += 1;
    }
    next
}

pub fn expand(start: &[char], rules: &[(char, String)], iterations: usize) -> (r: Vec<char>)
    ensures
        r@ == expanded(start@, rule_views(rules@), iterations as nat),
{
    let mut cur: Vec<char> = text::copy_of(start);
    let mut left: usize = iterations;
    while left > 0
        invariant
            left <= iterations,
            expanded(start@, rule_views(rules@), iterations as nat) == expanded(
                cur@,
                rule_views(rules@),
                left as nat,
            ),
        decreases left,
    {
        cur = rewrite(&cur, rules);
        left -= 1;
    }
    cur
}

/// Expands an L-system `iterations` times (output capped at 4096 symbols).
pub fn lsystem_expand(start: &str, rules: &[(char, String)], iterations: usize) -> (r: String)
    ensures
        r@ == expanded(start@, rule_views(rules@), iterations as nat),
        iterations >= 1 ==> r@.len() <= MAX_SYMBOLS,
{
    proof {
        if iterations >= 1 {
            law_growth_is_capped(start@, rule_views(rules@), iterations as nat);
        }
    }
    let a: Vec<char> = text::chars_of(start);
    let v: Vec<char> = expand(a.as_slice(), rules, iterations);
    text::string_of(v.as_slice())
}

// ---------------------------------------------------------------- note names

/// `C4`, `C-4`, `F#3`, `Bb2` name a note; `-`, `.`, `---` and `rest` a rest.
pub open spec fn note_name(s: Seq<char>) -> Option<Option<u8>> {
    if s == "-"@ || s == "."@ || text::lower(s) == "rest"@ || s == "---"@ {
        Some(None)
    } else {
        match chord::root_split(s) {
            None => None,
            Some((pc, rest)) => {
                let digits = if rest.len() > 0 && rest[0] == '-' {
                    rest.skip(1)
                } else {
                    rest
                };
                match text::parse_int(digits, 0x8000_0000, 0x7fff_ffff) {
                    None => None,
                    Some(oct) => {
                        let midi = 12 * (oct + 1) + pc;
                        if 0 <= midi <= 127 {
                            Some(Some(midi as u8))
                        } else {
                            None
                        }
                    },
                }
            },
        }
    }
}

pub fn read_note_name(s: &[char]) -> (r: Option<Option<u8>>)
    ensures
        r == note_name(s@),
{
    let l: Vec<char> = text::lower_of(s);
    if text::is_lit(s, "-") || text::is_lit(s, ".") || text::is_lit(l.as_slice(), "rest")
        || text::is_lit(s, "---") {
        return Some(None);
    }
    match chord::split_root(s) {
        None => None,
        Some((pc, rest)) => {
            let digits: &[char] = if rest.len() > 0 && rest[0] == '-' {
                text::tail(rest, 1)
            } else {
                rest
            };
            match text::read_int(digits, 0x8000_0000, 0x7fff_ffff) {
                None => None,
                Some(oct) => {
                    let midi: i64 = 12 * (oct + 1) + pc as i64;
                    if 0 <= midi && midi <= 127 {
                        Some(Some(midi as u8))
                    } else {
                        None
                    }
                },
            }
        },
    }
}

/// A note name, or a rest.
pub fn parse_note_name(s: &str) -> (r: Option<Option<u8>>)
    ensures
        r == note_name(s@),
{
    let v: Vec<char> = text::chars_of(s);
    read_note_name(v.as_slice())
}

pub open spec fn map_from(
    acc: Seq<(char, Option<u8>)>,
    ps: Seq<Seq<char>>,
    i: nat,
) -> Result<Seq<(char, Option<u8>)>, ListFault>
    decreases ps.len() - i,
{
    if i >= ps.len() {
        Ok(acc)
    } else {
        let part = text::trim(ps[i as int]);
        if part.len() == 0 {
            map_from(acc, ps, i + 1)
        } else {
            match entry(part, i as usize) {
                Ok((c, v)) => match note_name(v) {
                    Some(n) => map_from(acc.push((c, n)), ps, i + 1),
                    None => Err(ListFault::BadNote(i as usize)),
                },
                Err(e) => Err(e),
            }
        }
    }
}

/// The notes that symbols stand for, in a text such as `A=C4,B=G3,.=-`.
pub open spec fn map_of(s: Seq<char>) -> Result<Seq<(char, Option<u8>)>, ListFault> {
    map_from(Seq::empty(), text::pieces(s, ','), 0)
}

pub fn read_note_map(s: &[char]) -> (r: Result<Vec<(char, Option<u8>)>, ListFault>)
    ensures
        match r {
            Ok(v) => map_of(s@) == Ok::<Seq<(char, Option<u8>)>, ListFault>(v@),
            Err(e) => map_of(s@) == Err::<Seq<(char, Option<u8>)>, ListFault>(e),
        },
{
    let ps: Vec<&[char]> = text::split_on(s, ',');
    let ghost all = text::views(ps@);
    let mut out: Vec<(char, Option<u8>)> = Vec::new();
    let mut i: usize = 0;
    while i < ps.len()
        invariant
            i <= ps@.len(),
            all == text::views(ps@),
            map_of(s@) == map_from(out@, all, i as nat),
        decreases ps@.len() - i,
    {
        assert(all[i as int] == ps@[i as int]@);
        let part: &[char] = text::trimmed(ps[i]);
        if part.len() > 0 {
            match read_entry(part, i) {
                Ok((c, v)) => match read_note_name(v) {
                    Some(n) => {
                        out.push((c, n));
                    },
                    None => {
                        return Err(ListFault::BadNote(i));
                    },
                },
                Err(e) => {
                    return Err(e);
                },
            }
        }
        i += 1;
    }
    Ok(out)
}

/// Parses a symbol-to-note map such as `A=C4,B=G3,.=-`.
pub fn parse_note_map(s: &str) -> (r: Result<Vec<(char, Option<u8>)>, ListFault>)
    ensures
        match r {
            Ok(v) => map_of(s@) == Ok::<Seq<(char, Option<u8>)>, ListFault>(v@),
            Err(e) => map_of(s@) == Err::<Seq<(char, Option<u8>)>, ListFault>(e),
        },
{
    let v: Vec<char> = text::chars_of(s);
    read_note_map(v.as_slice())
}

// ---------------------------------------------------------------- L-systems as music

/// The note of a degree of a mode, counted upward from the tonic in `low`.
pub open spec fn degree_note(deg: int, low: int, key: u8, mode: Mode) -> u8 {
    let steps = gen::mode_steps(mode);
    let oct = low + deg / steps.len() as int;
    chord::clamp(12 * (oct + 1) + key + steps[deg % steps.len() as int], 0, 127) as u8
}

fn degree_note_of(deg: usize, low: i32, key: u8, mode: Mode) -> (r: u8)
    requires
        deg < 1000,
        0 <= low <= 5,
    ensures
        r == degree_note(deg as int, low as int, key, mode),
{
    let steps: &[u8] = mode.intervals();
    let n: usize = steps.len();
    assert(deg / n == deg as int / n as int && deg % n == deg as int % n as int);
    assert(deg / n <= 1000) by (nonlinear_arith)
        requires
            deg < 1000,
            n >= 1,
    ;
    let oct: i32 = low + (deg / n) as i32;
    let v: i32 = 12 * (oct + 1) + key as i32 + steps[deg % n] as i32;
    if v < 0 {
        0
    } else if v > 127 {
        127
    } else {
        v as u8
    }
}

/// What the map, from `i` on, makes of a symbol: `None` where it has no entry.
pub open spec fn mapped(map: Seq<(char, Option<u8>)>, c: char, i: nat) -> Option<Option<u8>>
    decreases map.len() - i,
{
    if i >= map.len() {
        None
    } else if map[i as int].0 == c {
        Some(map[i as int].1)
    } else {
        mapped(map, c, i + 1)
    }
}

/// The note a symbol plays: what the map says, else a letter walks the scale
/// and anything else rests.
pub open spec fn symbol_note(
    c: char,
    map: Seq<(char, Option<u8>)>,
    low: int,
    key: u8,
    mode: Mode,
) -> Option<u8> {
    match mapped(map, c, 0) {
        Some(n) => n,
        None => if text::is_upper(c) || text::is_lower(c) {
            Some(degree_note(text::up(c) as int - 'A' as int, low, key, mode))
        } else {
            None
        },
    }
}

pub open spec fn lsystem_column(
    symbols: Seq<char>,
    map: Seq<(char, Option<u8>)>,
    ch: Channel,
    key: u8,
    mode: Mode,
) -> Seq<Cell> {
    Seq::new(
        STEPS_PER_PHRASE as nat,
        |s: int|
            if s < symbols.len() {
                match symbol_note(
                    symbols[s],
                    map,
                    patterns::octaves_of(ch).0 as int,
                    key,
                    mode,
                ) {
                    Some(n) => patterns::hit_cell(n, patterns::default_hit(ch).1, 15),
                    None => song::empty_cell(),
                }
            } else {
                song::empty_cell()
            },
    )
}

fn note_of_symbol(c: char, map: &[(char, Option<u8>)], low: i32, key: u8, mode: Mode) -> (r: Option<
    u8,
>)
    requires
        0 <= low <= 5,
    ensures
        r == symbol_note(c, map@, low as int, key, mode),
{
    let mut i: usize = 0;
    while i < map.len()
        invariant
            i <= map@.len(),
            mapped(map@, c, 0) == mapped(map@, c, i as nat),
        decreases map@.len() - i,
    {
        if map[i].0 == c {
            return map[i].1;
        }
        i += 1;
    }
    if ('A' <= c && c <= 'Z') || ('a' <= c && c <= 'z') {
        let u: char = text::to_upper(c);
        Some(degree_note_of((u as u32 - 'A' as u32) as usize, low, key, mode))
    } else {
        None
    }
}

fn put_column(song: &mut Song, ch: usize, col: &[Cell; STEPS_PER_PHRASE])
    requires
        ch < CHANNELS,
        old(song).current_phrase < old(song).phrases@.len(),
    ensures
        final(song)@ == patterns::with_current(
            old(song)@,
            patterns::with_channel(patterns::current(old(song)@), ch as int, col@),
        ),
{
    let cur: usize = song.current_phrase;
    let mut p: Phrase = song.phrases[cur];
    assert(patterns::current(song@) == p@);
    let ghost before = song@.phrases;
    patterns::put_channel(&mut p, ch, col);
    song.phrases[cur] = p;
    assert(song@.phrases =~= before.update(cur as int, p@));
}

/// Plays an L-system, one symbol per step. Returns the expanded text.
pub fn lsystem(
    song: &mut Song,
    ch: Channel,
    start: &str,
    rules: &[(char, String)],
    iterations: usize,
    map: &[(char, Option<u8>)],
    key: u8,
    mode: Mode,
) -> (r: String)
    requires
        old(song).current_phrase < old(song).phrases@.len(),
    ensures
        r@ == expanded(start@, rule_views(rules@), iterations as nat),
        final(song)@ == patterns::with_current(
            old(song)@,
            patterns::with_channel(
                patterns::current(old(song)@),
                gen::channel_index(ch) as int,
                lsystem_column(r@, map@, ch, key, mode),
            ),
        ),
{
    let a: Vec<char> = text::chars_of(start);
    let symbols: Vec<char> = expand(a.as_slice(), rules, iterations);
    let (_, instr): (u8, u8) = patterns::default_note_instr(ch);
    let (low, _): (i32, i32) = patterns::default_octaves(ch);
    let blank: Cell = Cell::default();
    let mut col: [Cell; STEPS_PER_PHRASE] = [blank; STEPS_PER_PHRASE];
    let ghost want = lsystem_column(symbols@, map@, ch, key, mode);
    for s in 0..STEPS_PER_PHRASE
        invariant
            want == lsystem_column(symbols@, map@, ch, key, mode),
            instr == patterns::default_hit(ch).1,
            low == patterns::octaves_of(ch).0,
            0 <= low <= 5,
            forall|j: int| 0 <= j < s ==> #[trigger] col@[j] == want[j],
            forall|j: int|
                s <= j < STEPS_PER_PHRASE ==> #[trigger] col@[j] == song::empty_cell(),
    {
        if s < symbols.len() {
            if let Some(n) = note_of_symbol(symbols[s], map, low, key, mode) {
                col[s] = Cell { note: Some(n), instr, vol: 15, fx: None, hold: false };
            }
        }
    }
    assert(col@ =~= want);
    put_column(song, ch.index(), &col);
    text::string_of(symbols.as_slice())
}

// ---------------------------------------------------------------- cellular automata

/// The bit of a rule that a neighbourhood selects.
pub open spec fn rule_bit(rule: u8, l: bool, c: bool, r: bool) -> bool {
    let k = ((if l {
        4u8
    } else {
        0u8
    }) + (if c {
        2u8
    } else {
        0u8
    }) + (if r {
        1u8
    } else {
        0u8
    })) as u8;
    (rule >> k) & 1u8 == 1u8
}

/// The generation after a row; its ends are neighbours.
pub open spec fn next_row(rule: u8, row: Seq<bool>) -> Seq<bool> {
    let w = row.len() as int;
    Seq::new(
        row.len(),
        |i: int| rule_bit(rule, row[(i + w - 1) % w], row[i], row[(i + 1) % w]),
    )
}

pub open spec fn row_after(rule: u8, row: Seq<bool>, n: nat) -> Seq<bool>
    decreases n,
{
    if n == 0 {
        row
    } else {
        next_row(rule, row_after(rule, row, (n - 1) as nat))
    }
}

/// The first `k` cells of a random row, each alive with even odds, and the
/// generator after them.
pub open spec fn random_cells(x: u64, k: nat) -> (Seq<bool>, u64)
    decreases k,
{
    if k == 0 {
        (Seq::empty(), x)
    } else {
        let (row, y) = random_cells(x, (k - 1) as nat);
        let z = gen::rng_next(y);
        (row.push(odds::falls_below(gen::rng_value(z), 0x8000_0000)), z)
    }
}

/// The first row and the generator after it: random, one live cell at the
/// left edge, or one in the middle.
pub open spec fn first_row(seed: Seq<char>, width: nat, x: u64) -> (Seq<bool>, u64) {
    if seed == "random"@ {
        random_cells(x, width)
    } else if seed == "left"@ {
        (Seq::new(width, |i: int| i == 0), x)
    } else {
        (Seq::new(width, |i: int| i == width / 2), x)
    }
}

pub open spec fn ca_width(width: nat) -> nat {
    if width < 3 {
        3
    } else {
        width
    }
}

fn rule_bit_of(rule: u8, l: bool, c: bool, r: bool) -> (b: bool)
    ensures
        b == rule_bit(rule, l, c, r),
{
    let mut k: u8 = 0;
    if l {
        k = k + 4;
    }
    if c {
        k = k + 2;
    }
    if r {
        k = k + 1;
    }
    (rule >> k) & 1u8 == 1u8
}

fn next_row_of(rule: u8, row: &Vec<bool>) -> (r: Vec<bool>)
    requires
        row@.len() >= 1,
    ensures
        r@ == next_row(rule, row@),
{
    let w: usize = row.len();
    let mut out: Vec<bool> = Vec::new();
    for i in 0..w
        invariant
            w == row@.len(),
            w >= 1,
            out@ == next_row(rule, row@).take(i as int),
    {
        let left: usize = if i == 0 {
            w - 1
        } else {
            i - 1
        };
        let right: usize = if i + 1 == w {
            0
        } else {
            i + 1
        };
        proof {
            if i == 0 {
                vstd::arithmetic::div_mod::lemma_small_mod((w - 1) as nat, w as nat);
            } else {
                vstd::arithmetic::div_mod::lemma_mod_add_multiples_vanish(i - 1, w as int);
                vstd::arithmetic::div_mod::lemma_small_mod((i - 1) as nat, w as nat);
            }
            if i + 1 == w {
                vstd::arithmetic::div_mod::lemma_mod_self_0(w as int);
            } else {
                vstd::arithmetic::div_mod::lemma_small_mod((i + 1) as nat, w as nat);
            }
        }
        assert(left == (i + w - 1) % w as int);
        assert(right == (i + 1) % w as int);
        out.push(rule_bit_of(rule, row[left], row[i], row[right]));
        assert(out@ =~= next_row(rule, row@).take(i + 1));
    }
    assert(out@ =~= next_row(rule, row@));
    out
}

fn first_row_of(seed: &[char], width: usize, rng: &mut Rng) -> (r: Vec<bool>)
    ensures
        (r@, final(rng).state) == first_row(seed@, width as nat, old(rng).state),
        r@.len() == width,
{
    let mut row: Vec<bool> = Vec::new();
    if text::is_lit(seed, "random") {
        for i in 0..width
            invariant
                (row@, rng.state) == random_cells(old(rng).state, i as nat),
                row@.len() == i,
        {
            let b: bool = rng.chance(0x8000_0000);
            row.push(b);
        }
        return row;
    }
    let at: usize = if text::is_lit(seed, "left") {
        0
    } else {
        width / 2
    };
    for i in 0..width
        invariant
            row@ == Seq::new(i as nat, |j: int| j == at),
            rng.state == old(rng).state,
    {
        row.push(i == at);
        assert(row@ =~= Seq::new((i + 1) as nat, |j: int| j == at));
    }
    assert(row@ =~= first_row(seed@, width as nat, rng.state).0);
    row
}

fn copy_row(row: &Vec<bool>) -> (r: Vec<bool>)
    ensures
        r@ == row@,
{
    let mut out: Vec<bool> = Vec::new();
    for i in 0..row.len()
        invariant
            out@ == row@.take(i as int),
    {
        out.push(row[i]);
        assert(out@ =~= row@.take(i + 1));
    }
    assert(out@ =~= row@);
    out
}

/// An elementary cellular automaton with wrap-around: `rows` generations
/// from a seed row, at least three cells wide.
pub fn cellular_rows(rule: u8, width: usize, rows: usize, seed: &str, rng: &mut Rng) -> (r: Vec<
    Vec<bool>,
>)
    ensures
        ({
            let (first, after) = first_row(seed@, ca_width(width as nat), old(rng).state);
            &&& final(rng).state == after
            &&& r@.len() == rows
            &&& forall|n: int|
                0 <= n < rows ==> (#[trigger] r@[n])@ == row_after(rule, first, n as nat)
                    && r@[n]@.len() == ca_width(width as nat)
        }),
{
    let s: Vec<char> = text::chars_of(seed);
    let width: usize = if width < 3 {
        3
    } else {
        width
    };
    let mut row: Vec<bool> = first_row_of(s.as_slice(), width, rng);
    let ghost first = row@;
    let mut out: Vec<Vec<bool>> = Vec::new();
    for n in 0..rows
        invariant
            width >= 3,
            row@ == row_after(rule, first, n as nat),
            row@.len() == width,
            out@.len() == n,
            forall|k: int|
                0 <= k < n ==> (#[trigger] out@[k])@ == row_after(rule, first, k as nat)
                    && out@[k]@.len() == width,
    {
        out.push(copy_row(&row));
        row = next_row_of(rule, &row);
    }
    out
}

/// The step that a live generation plays: the pitch climbs the scale with
/// the number of live cells.
pub open spec fn ca_cell(row: Seq<bool>, ch: Channel, key: u8, mode: Mode) -> Cell {
    let (low, high) = patterns::octaves_of(ch);
    let span = (high - low + 1) * gen::mode_steps(mode).len();
    let d = gen::count_hits(row) * span / (row.len() + 1) as int;
    let deg = if d < span - 1 {
        d
    } else {
        span - 1
    };
    if row[row.len() as int / 2] {
        patterns::hit_cell(
            degree_note(deg, low as int, key, mode),
            patterns::default_hit(ch).1,
            15,
        )
    } else {
        song::empty_cell()
    }
}

pub open spec fn ca_column(
    rule: u8,
    first: Seq<bool>,
    ch: Channel,
    key: u8,
    mode: Mode,
) -> Seq<Cell> {
    Seq::new(
        STEPS_PER_PHRASE as nat,
        |s: int| ca_cell(row_after(rule, first, s as nat), ch, key, mode),
    )
}

/// How many of the first `k` steps are struck.
pub open spec fn struck(col: Seq<Cell>, k: nat) -> nat
    decreases k,
{
    if k == 0 {
        0
    } else {
        struck(col, (k - 1) as nat) + (if col[k - 1].note is Some {
            1nat
        } else {
            0nat
        })
    }
}

fn count_live(row: &Vec<bool>) -> (r: usize)
    ensures
        r == gen::count_hits(row@),
        r <= row@.len(),
{
    let mut n: usize = 0;
    for i in 0..row.len()
        invariant
            n == gen::count_hits(row@.take(i as int)),
            n <= i,
    {
        assert(row@.take(i + 1).drop_last() =~= row@.take(i as int));
        if row[i] {
            n += 1;
        }
    }
    assert(row@.take(row@.len() as int) =~= row@);
    n
}

fn ca_cell_of(row: &Vec<bool>, ch: Channel, key: u8, mode: Mode) -> (r: Cell)
    requires
        row@.len() >= 3,
    ensures
        r == ca_cell(row@, ch, key, mode),
{
    if !row[row.len() / 2] {
        return Cell::default();
    }
    let (_, instr): (u8, u8) = patterns::default_note_instr(ch);
    let (low, high): (i32, i32) = patterns::default_octaves(ch);
    let steps: &[u8] = mode.intervals();
    assert((high - low + 1) * steps@.len() <= 42) by (nonlinear_arith)
        requires
            0 <= low <= high <= 5,
            steps@.len() <= 7,
    ;
    assert((high - low + 1) * steps@.len() >= 5) by (nonlinear_arith)
        requires
            0 <= low <= high <= 5,
            steps@.len() >= 5,
    ;
    let span: u128 = (high - low + 1) as u128 * steps.len() as u128;
    let alive: u128 = count_live(row) as u128;
    assert(alive * span <= 0xffff_ffff_ffff_ffff * 42) by (nonlinear_arith)
        requires
            alive <= 0xffff_ffff_ffff_ffff,
            span <= 42,
    ;
    let d: u128 = alive * span / (row.len() as u128 + 1);
    assert(d == gen::count_hits(row@) * span / (row@.len() + 1) as int);
    let deg: u128 = if d < span - 1 {
        d
    } else {
        span - 1
    };
    let n: u8 = degree_note_of(deg as usize, low, key, mode);
    Cell { note: Some(n), instr, vol: 15, fx: None, hold: false }
}

/// Plays a cellular automaton: generation `s` is step `s`, struck where its
/// centre cell is alive. Returns how many steps are struck.
pub fn cellular(
    song: &mut Song,
    ch: Channel,
    rule: u8,
    width: usize,
    seed: &str,
    key: u8,
    mode: Mode,
    rng_seed: u64,
) -> (r: usize)
    requires
        old(song).current_phrase < old(song).phrases@.len(),
    ensures
        ({
            let first = first_row(seed@, ca_width(width as nat), gen::rng_seed(rng_seed)).0;
            let col = ca_column(rule, first, ch, key, mode);
            &&& final(song)@ == patterns::with_current(
                old(song)@,
                patterns::with_channel(
                    patterns::current(old(song)@),
                    gen::channel_index(ch) as int,
                    col,
                ),
            )
            &&& r == struck(col, STEPS_PER_PHRASE as nat)
        }),
{
    let mut rng: Rng = Rng::new(rng_seed);
    let rows: Vec<Vec<bool>> = cellular_rows(rule, width, STEPS_PER_PHRASE, seed, &mut rng);
    let ghost first = first_row(seed@, ca_width(width as nat), gen::rng_seed(rng_seed)).0;
    let ghost want = ca_column(rule, first, ch, key, mode);
    let blank: Cell = Cell::default();
    let mut col: [Cell; STEPS_PER_PHRASE] = [blank; STEPS_PER_PHRASE];
    let mut hits: usize = 0;
    for s in 0..STEPS_PER_PHRASE
        invariant
            rows@.len() == STEPS_PER_PHRASE,
            forall|n: int|
                0 <= n < STEPS_PER_PHRASE ==> (#[trigger] rows@[n])@ == row_after(
                    rule,
                    first,
                    n as nat,
                ) && rows@[n]@.len() >= 3,
            want == ca_column(rule, first, ch, key, mode),
            forall|j: int| 0 <= j < s ==> #[trigger] col@[j] == want[j],
            hits == struck(want, s as nat),
            hits <= s,
    {
        let c: Cell = ca_cell_of(&rows[s], ch, key, mode);
        col[s] = c;
        assert(c == want[s as int]);
        if c.note.is_some() {
            hits += 1;
        }
    }
    assert(col@ =~= want);
    put_column(song, ch.index(), &col);
    hits
}

} // verus!
