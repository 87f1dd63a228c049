//! What reading makes of text that was laid out by the writer: lines, words,
//! comments, directives and pairs come apart as they were put together.

use vstd::prelude::*;

use crate::text;
use crate::vip::quote;
use crate::vip::writer;

verus! {

// ---------------------------------------------------------------- lines

/// Text that stays on one line.
pub open spec fn one_line(s: Seq<char>) -> bool {
    forall|i: int| 0 <= i < s.len() ==> #[trigger] s[i] != '\n' && s[i] != '\r'
}

pub proof fn lemma_lines_step(x: Seq<char>, r: Seq<char>)
    requires
        one_line(x),
    ensures
        text::lines(x + seq!['\n'] + r) == seq![x] + text::lines(r),
{
    let s = x + seq!['\n'] + r;
    assert forall|i: int| 0 <= i < x.len() implies #[trigger] s[i] != '\n' by {
        assert(s[i] == x[i]);
    }
    assert(s[x.len() as int] == '\n');
    text::lemma_char_index_is(s, '\n', x.len() as int);
    assert(s.take(x.len() as int) =~= x);
    assert(s.skip((x.len() + 1) as int) =~= r);
    if x.len() > 0 {
        assert(x[x.len() - 1] != '\r');
    }
    assert(text::chop_cr(x) == x);
}

/// Lines written out and split again are the lines.
pub proof fn lemma_lines(ls: Seq<Seq<char>>)
    requires
        forall|i: int| 0 <= i < ls.len() ==> one_line(#[trigger] ls[i]),
    ensures
        text::lines(writer::unlines(ls)) == ls,
    decreases ls.len(),
{
    if ls.len() == 0 {
    } else {
        let x = ls[0];
        let rest = ls.skip(1);
        assert forall|i: int| 0 <= i < rest.len() implies one_line(#[trigger] rest[i]) by {
            assert(rest[i] == ls[i + 1]);
        }
        lemma_lines(rest);
        assert(ls =~= seq![x] + rest);
        writer::lemma_unlines_add(seq![x], rest);
        writer::lemma_unlines_push(Seq::empty(), x);
        assert(Seq::empty().push(x) =~= seq![x]);
        assert(writer::unlines(seq![x]) =~= x + seq!['\n']);
        lemma_lines_step(x, writer::unlines(rest));
    }
}

// ---------------------------------------------------------------- words

/// A word: something, without whitespace.
pub open spec fn is_word(w: Seq<char>) -> bool {
    &&& w.len() > 0
    &&& forall|i: int| 0 <= i < w.len() ==> !text::is_ws(#[trigger] w[i])
}

/// A word that does not start a comment.
pub open spec fn is_quiet(w: Seq<char>) -> bool {
    is_word(w) && w[0] != '#'
}

pub proof fn lemma_words_spaces(k: nat, r: Seq<char>)
    ensures
        text::words(writer::sp(k) + r) == text::words(r),
    decreases k,
{
    let s = writer::sp(k) + r;
    if k == 0 {
        assert(s =~= r);
    } else {
        assert(s[0] == ' ');
        assert(s.skip(1) =~= writer::sp((k - 1) as nat) + r);
        lemma_words_spaces((k - 1) as nat, r);
    }
}

pub proof fn lemma_words_front(w: Seq<char>, r: Seq<char>)
    requires
        is_word(w),
        r.len() > 0 ==> text::is_ws(r[0]),
    ensures
        text::words(w + r) == seq![w] + text::words(r),
{
    let s = w + r;
    assert(s[0] == w[0]);
    assert forall|i: int| 0 <= i < w.len() implies !text::is_ws(#[trigger] s[i]) by {
        assert(s[i] == w[i]);
    }
    if r.len() > 0 {
        assert(s[w.len() as int] == r[0]);
    }
    text::lemma_ws_index_is(s, w.len() as int);
    assert(s.take(w.len() as int) =~= w);
    assert(s.skip(w.len() as int) =~= r);
}

/// A laid-out line seen from its first word.
pub proof fn lemma_laid_front(x: (Seq<char>, nat), rest: Seq<(Seq<char>, nat)>)
    ensures
        writer::laid(seq![x] + rest) == x.0 + writer::sp(x.1) + writer::laid(rest),
    decreases rest.len(),
{
    let ts = seq![x] + rest;
    if rest.len() == 0 {
        assert(ts.drop_last() =~= Seq::<(Seq<char>, nat)>::empty());
        reveal_with_fuel(writer::laid, 2);
        assert(writer::laid(ts) =~= x.0 + writer::sp(x.1) + writer::laid(rest));
    } else {
        assert(ts.drop_last() =~= seq![x] + rest.drop_last());
        lemma_laid_front(x, rest.drop_last());
        assert(writer::laid(ts) =~= x.0 + writer::sp(x.1) + writer::laid(rest));
    }
}

/// Words with room between them.
pub open spec fn spaced(ts: Seq<(Seq<char>, nat)>) -> bool {
    &&& forall|i: int| 0 <= i < ts.len() ==> is_quiet(#[trigger] ts[i].0)
    &&& forall|i: int| 0 <= i < ts.len() - 1 ==> #[trigger] ts[i].1 >= 1
}

pub open spec fn firsts(ts: Seq<(Seq<char>, nat)>) -> Seq<Seq<char>> {
    ts.map_values(|t: (Seq<char>, nat)| t.0)
}

pub proof fn lemma_spaced_rest(ts: Seq<(Seq<char>, nat)>)
    requires
        spaced(ts),
        ts.len() > 0,
    ensures
        spaced(ts.skip(1)),
        ts == seq![ts[0]] + ts.skip(1),
{
    let r = ts.skip(1);
    assert forall|i: int| 0 <= i < r.len() implies is_quiet(#[trigger] r[i].0) by {
        assert(r[i] == ts[i + 1]);
        assert(is_quiet(ts[i + 1].0));
    }
    assert forall|i: int| 0 <= i < r.len() - 1 implies #[trigger] r[i].1 >= 1 by {
        assert(r[i] == ts[i + 1]);
        assert(ts[i + 1].1 >= 1);
    }
    assert(ts =~= seq![ts[0]] + ts.skip(1));
}

/// The words of a laid-out line.
pub proof fn lemma_words_laid(ts: Seq<(Seq<char>, nat)>)
    requires
        spaced(ts),
    ensures
        text::words(writer::laid(ts)) == firsts(ts),
    decreases ts.len(),
{
    if ts.len() == 0 {
        assert(firsts(ts) =~= Seq::<Seq<char>>::empty());
    } else {
        let x = ts[0];
        let rest = ts.skip(1);
        lemma_spaced_rest(ts);
        lemma_words_laid(rest);
        lemma_laid_front(x, rest);
        let r = writer::sp(x.1) + writer::laid(rest);
        assert(writer::laid(ts) =~= x.0 + r);
        assert(is_quiet(ts[0].0));
        if rest.len() == 0 {
            assert(writer::laid(rest) =~= Seq::<char>::empty());
            if x.1 > 0 {
                assert(r[0] == ' ');
            }
        } else {
            assert(ts[0].1 >= 1);
            assert(r[0] == ' ');
        }
        lemma_words_front(x.0, r);
        lemma_words_spaces(x.1, writer::laid(rest));
        assert(firsts(ts) =~= seq![x.0] + firsts(rest));
    }
}

/// Laid-out words stay on one line.
pub proof fn lemma_laid_one_line(k: nat, ts: Seq<(Seq<char>, nat)>)
    requires
        forall|i: int| 0 <= i < ts.len() ==> is_word(#[trigger] ts[i].0),
    ensures
        one_line(writer::sp(k) + writer::laid(ts)),
        one_line(writer::laid(ts)),
    decreases ts.len(),
{
    let s = writer::laid(ts);
    if ts.len() > 0 {
        let front = ts.drop_last();
        assert forall|i: int| 0 <= i < front.len() implies is_word(#[trigger] front[i].0) by {
            assert(is_word(ts[i].0));
        }
        lemma_laid_one_line(k, front);
        let p = writer::laid(front);
        let w = ts.last().0;
        assert(is_word(ts[ts.len() - 1].0));
        assert forall|i: int| 0 <= i < s.len() implies #[trigger] s[i] != '\n' && s[i]
            != '\r' by {
            if i < p.len() {
                assert(s[i] == p[i]);
            } else if i < p.len() + w.len() {
                assert(s[i] == w[i - p.len()]);
                assert(!text::is_ws(w[i - p.len()]));
            } else {
                assert(s[i] == ' ');
            }
        }
    }
    let t = writer::sp(k) + s;
    assert forall|i: int| 0 <= i < t.len() implies #[trigger] t[i] != '\n' && t[i] != '\r' by {
        if i < k {
            assert(t[i] == ' ');
        } else {
            assert(t[i] == s[i - k]);
        }
    }
}

/// The first character of a laid-out line.
pub proof fn lemma_laid_first(ts: Seq<(Seq<char>, nat)>)
    requires
        spaced(ts),
        ts.len() > 0,
    ensures
        writer::laid(ts).len() > 0,
        writer::laid(ts)[0] == ts[0].0[0],
        !text::is_ws(writer::laid(ts)[0]),
{
    lemma_spaced_rest(ts);
    lemma_laid_front(ts[0], ts.skip(1));
    assert(is_quiet(ts[0].0));
    assert(writer::laid(ts)[0] == ts[0].0[0]);
}

/// The last character of a line without trailing spaces.
pub proof fn lemma_laid_last(ts: Seq<(Seq<char>, nat)>)
    requires
        spaced(ts),
        ts.len() > 0,
        ts.last().1 == 0,
    ensures
        writer::laid(ts).len() > 0,
        !text::is_ws(writer::laid(ts).last()),
{
    let w = ts.last().0;
    assert(is_quiet(ts[ts.len() - 1].0));
    assert(writer::sp(0) =~= Seq::<char>::empty());
    let l = writer::laid(ts);
    assert(l =~= writer::laid(ts.drop_last()) + w);
    assert(l.last() == w[w.len() - 1]);
}

// ---------------------------------------------------------------- trimming

pub proof fn lemma_words_trailing(s: Seq<char>, c: char)
    requires
        text::is_ws(c),
    ensures
        text::words(s.push(c)) == text::words(s),
    decreases s.len(),
{
    let t = s.push(c);
    if s.len() == 0 {
        assert(t.skip(1) =~= Seq::<char>::empty());
        reveal_with_fuel(text::words, 2);
    } else if text::is_ws(s[0]) {
        assert(t.skip(1) =~= s.skip(1).push(c));
        assert(t[0] == s[0]);
        lemma_words_trailing(s.skip(1), c);
    } else {
        text::lemma_ws_index(s);
        let k = text::ws_index(s) as int;
        assert(t[0] == s[0]);
        assert forall|i: int| 0 <= i < k implies !text::is_ws(#[trigger] t[i]) by {
            assert(t[i] == s[i]);
        }
        text::lemma_ws_index_is(t, k);
        assert(t.take(k) =~= s.take(k));
        assert(t.skip(k) =~= s.skip(k).push(c));
        assert(k > 0) by {
            if k == 0 {
                assert(text::is_ws(s[0]));
            }
        }
        lemma_words_trailing(s.skip(k), c);
    }
}

pub proof fn lemma_words_trim_end(s: Seq<char>)
    ensures
        text::words(text::trim_end(s)) == text::words(s),
        s.len() > 0 && !text::is_ws(s[0]) ==> text::trim_end(s).len() > 0 && text::trim_end(s)[0]
            == s[0],
    decreases s.len(),
{
    if s.len() > 0 && text::is_ws(s.last()) {
        lemma_words_trim_end(s.drop_last());
        lemma_words_trailing(s.drop_last(), s.last());
        assert(s.drop_last().push(s.last()) =~= s);
    }
}

/// An indented line reads as the words it was laid out from.
pub proof fn lemma_indented(k: nat, ts: Seq<(Seq<char>, nat)>)
    requires
        spaced(ts),
        ts.len() > 0,
    ensures
        ({
            let line = text::trim(text::uncomment(writer::sp(k) + writer::laid(ts)));
            &&& line.len() > 0
            &&& line[0] == ts[0].0[0]
            &&& text::words(line) == firsts(ts)
        }),
{
    let l = writer::laid(ts);
    let raw = writer::sp(k) + l;
    lemma_quiet_line(k, ts);
    lemma_laid_first(ts);
    assert forall|i: int| 0 <= i < k implies text::is_ws(#[trigger] raw[i]) by {
        assert(raw[i] == ' ');
    }
    assert(raw[k as int] == l[0]);
    text::lemma_ink_index_is(raw, k as int);
    assert(raw.skip(k as int) =~= l);
    lemma_words_trim_end(l);
    lemma_words_laid(ts);
}

// ---------------------------------------------------------------- comments

/// No `#` begins a word.
pub open spec fn calm(s: Seq<char>, in_word: bool) -> bool {
    forall|i: int|
        0 <= i < s.len() && #[trigger] s[i] == '#' ==> (if i == 0 {
            in_word
        } else {
            !text::is_ws(s[i - 1])
        })
}

pub proof fn lemma_calm(s: Seq<char>, in_word: bool)
    requires
        calm(s, in_word),
    ensures
        text::uncomment_from(s, in_word) == s,
    decreases s.len(),
{
    if s.len() > 0 {
        let t = s.skip(1);
        assert forall|i: int| 0 <= i < t.len() && #[trigger] t[i] == '#' implies (if i == 0 {
            !text::is_ws(s[0])
        } else {
            !text::is_ws(t[i - 1])
        }) by {
            assert(t[i] == s[i + 1]);
            if i > 0 {
                assert(t[i - 1] == s[i]);
            }
        }
        lemma_calm(t, !text::is_ws(s[0]));
        assert(s[0] == '#' ==> in_word);
        assert(seq![s[0]] + t =~= s);
    }
}

/// A laid-out line holds no comment.
pub proof fn lemma_laid_calm(k: nat, ts: Seq<(Seq<char>, nat)>)
    requires
        spaced(ts),
    ensures
        calm(writer::sp(k) + writer::laid(ts), false),
    decreases ts.len(),
{
    let s = writer::sp(k) + writer::laid(ts);
    if ts.len() == 0 {
        assert forall|i: int| 0 <= i < s.len() implies #[trigger] s[i] != '#' by {
            assert(s[i] == ' ');
        }
    } else {
        let front = ts.drop_last();
        assert forall|i: int| 0 <= i < front.len() implies is_quiet(#[trigger] front[i].0) by {
            assert(is_quiet(ts[i].0));
        }
        assert forall|i: int| 0 <= i < front.len() - 1 implies #[trigger] front[i].1 >= 1 by {
            assert(ts[i].1 >= 1);
        }
        lemma_laid_calm(k, front);
        let p = writer::sp(k) + writer::laid(front);
        let w = ts.last().0;
        assert(is_quiet(ts[ts.len() - 1].0));
        assert(s =~= p + w + writer::sp(ts.last().1));
        assert forall|i: int| 0 <= i < s.len() && #[trigger] s[i] == '#' implies (if i == 0 {
            false
        } else {
            !text::is_ws(s[i - 1])
        }) by {
            if i < p.len() {
                assert(p[i] == '#');
                if i > 0 {
                    assert(s[i - 1] == p[i - 1]);
                }
            } else if i < p.len() + w.len() {
                let j = i - p.len();
                assert(w[j] == '#');
                assert(j != 0);
                assert(s[i - 1] == w[j - 1]);
            } else {
                assert(s[i] == ' ');
            }
        }
    }
}

pub proof fn lemma_quiet_line(k: nat, ts: Seq<(Seq<char>, nat)>)
    requires
        spaced(ts),
    ensures
        text::uncomment(writer::sp(k) + writer::laid(ts)) == writer::sp(k) + writer::laid(ts),
{
    lemma_laid_calm(k, ts);
    lemma_calm(writer::sp(k) + writer::laid(ts), false);
}

// ---------------------------------------------------------------- directives

/// A text cut after its first word, when a space and more text follow.
pub proof fn lemma_first_word(w: Seq<char>, gap: nat, r: Seq<char>)
    requires
        is_word(w),
        r.len() > 0 ==> gap >= 1 && !text::is_ws(r[0]),
    ensures
        text::first_word(w + writer::sp(gap) + r) == (w, r),
{
    let s = w + writer::sp(gap) + r;
    assert(s[0] == w[0]);
    text::lemma_ink_index_is(s, 0);
    assert(s.skip(0) =~= s);
    assert forall|i: int| 0 <= i < w.len() implies !text::is_ws(#[trigger] s[i]) by {
        assert(s[i] == w[i]);
    }
    if w.len() < s.len() {
        if gap > 0 {
            assert(s[w.len() as int] == ' ');
        }
    }
    text::lemma_ws_index_is(s, w.len() as int);
    assert(s.take(w.len() as int) =~= w);
    let u = s.skip(w.len() as int);
    assert(u =~= writer::sp(gap) + r);
    assert forall|i: int| 0 <= i < gap implies text::is_ws(#[trigger] u[i]) by {
        assert(u[i] == ' ');
    }
    if r.len() > 0 {
        assert(u[gap as int] == r[0]);
    }
    text::lemma_ink_index_is(u, gap as int);
    assert(u.skip(gap as int) =~= r);
}

/// What the reader makes of a directive line: the line itself, its name and
/// its arguments.
pub open spec fn reads_as(raw: Seq<char>, dir: Seq<char>, args: Seq<char>) -> bool {
    let line = text::trim(text::uncomment(raw));
    &&& line.len() > 0
    &&& line[0] == '@'
    &&& text::first_word(line.skip(1)) == (dir, args)
}

/// A tight line that starts with `@` and a name.
pub proof fn lemma_directive(dir: Seq<char>, gap: nat, r: Seq<char>)
    requires
        is_word(dir),
        r.len() > 0 ==> gap >= 1 && !text::is_ws(r[0]) && !text::is_ws(r.last()),
        r.len() == 0 ==> gap == 0,
        calm(seq!['@'] + dir + writer::sp(gap) + r, false),
    ensures
        reads_as(seq!['@'] + dir + writer::sp(gap) + r, dir, r),
{
    let raw = seq!['@'] + dir + writer::sp(gap) + r;
    lemma_calm(raw, false);
    assert(raw[0] == '@');
    if r.len() > 0 {
        assert(raw.last() == r.last());
    } else {
        assert(raw.last() == dir[dir.len() - 1]);
    }
    text::lemma_trim_tight(raw);
    assert(raw.skip(1) =~= dir + writer::sp(gap) + r);
    lemma_first_word(dir, gap, r);
}

/// A directive laid out as words.
pub proof fn lemma_laid_directive(dir: Seq<char>, gap: nat, rest: Seq<(Seq<char>, nat)>)
    requires
        is_word(dir),
        spaced(rest),
        rest.len() > 0 ==> gap >= 1 && rest.last().1 == 0,
        rest.len() == 0 ==> gap == 0,
    ensures
        reads_as(
            writer::laid(seq![(seq!['@'] + dir, gap)] + rest),
            dir,
            writer::laid(rest),
        ),
        text::words(writer::laid(rest)) == firsts(rest),
        one_line(writer::laid(seq![(seq!['@'] + dir, gap)] + rest)),
{
    let at = seq!['@'] + dir;
    let ts = seq![(at, gap)] + rest;
    assert(is_quiet(at)) by {
        assert(at[0] == '@');
        assert forall|i: int| 0 <= i < at.len() implies !text::is_ws(#[trigger] at[i]) by {
            if i > 0 {
                assert(at[i] == dir[i - 1]);
            }
        }
    }
    assert(spaced(ts)) by {
        assert forall|i: int| 0 <= i < ts.len() implies is_quiet(#[trigger] ts[i].0) by {
            if i > 0 {
                assert(ts[i] == rest[i - 1]);
                assert(is_quiet(rest[i - 1].0));
            }
        }
        assert forall|i: int| 0 <= i < ts.len() - 1 implies #[trigger] ts[i].1 >= 1 by {
            if i > 0 {
                assert(ts[i] == rest[i - 1]);
                assert(rest[i - 1].1 >= 1);
            }
        }
    }
    lemma_laid_front((at, gap), rest);
    assert forall|i: int| 0 <= i < ts.len() implies is_word(#[trigger] ts[i].0) by {
        assert(is_quiet(ts[i].0));
    }
    lemma_laid_one_line(0, ts);
    lemma_laid_calm(0, ts);
    assert(writer::sp(0) + writer::laid(ts) =~= writer::laid(ts));
    let r = writer::laid(rest);
    if rest.len() > 0 {
        lemma_laid_first(rest);
        lemma_laid_last(rest);
    }
    assert(writer::laid(ts) =~= seq!['@'] + dir + writer::sp(gap) + r);
    lemma_directive(dir, gap, r);
    lemma_words_laid(rest);
}

/// Arguments whose first word is an index.
pub proof fn lemma_indexed(w: Seq<char>, gap: nat, rest: Seq<(Seq<char>, nat)>)
    requires
        is_quiet(w),
        spaced(rest),
        rest.len() > 0 ==> gap >= 1,
    ensures
        text::first_word(writer::laid(seq![(w, gap)] + rest)) == (w, writer::laid(rest)),
{
    lemma_laid_front((w, gap), rest);
    if rest.len() > 0 {
        lemma_laid_first(rest);
    } else {
        assert(writer::laid(rest) =~= Seq::<char>::empty());
    }
    lemma_first_word(w, gap, writer::laid(rest));
}

// ---------------------------------------------------------------- keys and values

/// A word cut at its `=`.
pub proof fn lemma_cut(k: Seq<char>, v: Seq<char>)
    requires
        forall|i: int| 0 <= i < k.len() ==> #[trigger] k[i] != '=',
    ensures
        text::cut_word(k + seq!['='] + v) == Some((k, v)),
{
    let w = k + seq!['='] + v;
    assert forall|i: int| 0 <= i < k.len() implies #[trigger] w[i] != '=' by {
        assert(w[i] == k[i]);
    }
    assert(w[k.len() as int] == '=');
    text::lemma_char_index_is(w, '=', k.len() as int);
    assert(w.take(k.len() as int) =~= k);
    assert(w.skip((k.len() + 1) as int) =~= v);
}

pub open spec fn is_key(k: Seq<char>) -> bool {
    &&& is_word(k)
    &&& forall|i: int| 0 <= i < k.len() ==> #[trigger] k[i] != '='
}

proof fn lemma_pair_key(k: Seq<char>, r: Seq<char>)
    requires
        is_key(k),
    ensures
        ({
            let s = k + seq!['='] + r;
            &&& text::char_index(s, '=') == k.len()
            &&& s.len() > k.len()
            &&& text::trim(s.take(k.len() as int)) == k
            &&& s.skip((k.len() + 1) as int) == r
        }),
{
    let s = k + seq!['='] + r;
    assert forall|i: int| 0 <= i < k.len() implies #[trigger] s[i] != '=' by {
        assert(s[i] == k[i]);
    }
    assert(s[k.len() as int] == '=');
    text::lemma_char_index_is(s, '=', k.len() as int);
    assert(s.take(k.len() as int) =~= k);
    assert(s.skip((k.len() + 1) as int) =~= r);
    assert(!text::is_ws(k[k.len() - 1]));
    text::lemma_trim_tight(k);
}

proof fn lemma_after_gap(gap: nat, r: Seq<char>)
    requires
        r.len() > 0 ==> !text::is_ws(r[0]),
    ensures
        text::trim_start(writer::sp(gap) + r) == r,
{
    let u = writer::sp(gap) + r;
    assert forall|i: int| 0 <= i < gap implies text::is_ws(#[trigger] u[i]) by {
        assert(u[i] == ' ');
    }
    if r.len() > 0 {
        assert(u[gap as int] == r[0]);
    }
    text::lemma_ink_index_is(u, gap as int);
    assert(u.skip(gap as int) =~= r);
}

/// A pair with a bare value, and the pairs after it.
pub proof fn lemma_bare_pair(k: Seq<char>, v: Seq<char>, gap: nat, r: Seq<char>)
    requires
        is_key(k),
        quote::is_bare(v),
        r.len() > 0 ==> gap >= 1 && !text::is_ws(r[0]),
    ensures
        quote::pairs_from(k + seq!['='] + v + writer::sp(gap) + r) == seq![(k, v)]
            + quote::pairs_from(r),
{
    let u = v + writer::sp(gap) + r;
    let s = k + seq!['='] + v + writer::sp(gap) + r;
    assert(s =~= k + seq!['='] + u);
    lemma_pair_key(k, u);
    if u.len() > 0 {
        if v.len() > 0 {
            assert(u[0] == v[0]);
        } else if gap > 0 {
            assert(u[0] == ' ');
        }
    }
    assert forall|i: int| 0 <= i < v.len() implies !text::is_ws(#[trigger] u[i]) by {
        assert(u[i] == v[i]);
    }
    if v.len() < u.len() {
        assert(gap > 0);
        assert(u[v.len() as int] == ' ');
    }
    text::lemma_ws_index_is(u, v.len() as int);
    assert(u.take(v.len() as int) =~= v);
    assert(u.skip(v.len() as int) =~= writer::sp(gap) + r);
    lemma_after_gap(gap, r);
}

/// A pair with a quoted value, and the pairs after it.
pub proof fn lemma_quoted_pair(k: Seq<char>, v: Seq<char>, gap: nat, r: Seq<char>)
    requires
        is_key(k),
        r.len() > 0 ==> !text::is_ws(r[0]),
    ensures
        quote::pairs_from(k + seq!['='] + quote::quote(v) + writer::sp(gap) + r) == seq![(k, v)]
            + quote::pairs_from(r),
{
    let u = quote::quote(v) + (writer::sp(gap) + r);
    let s = k + seq!['='] + quote::quote(v) + writer::sp(gap) + r;
    assert(s =~= k + seq!['='] + u);
    lemma_pair_key(k, u);
    quote::law_quotes_read_back(v, writer::sp(gap) + r);
    lemma_after_gap(gap, r);
}

/// A key with its value, in quotes or bare.
pub open spec fn pair_text(p: (Seq<char>, Seq<char>, bool)) -> Seq<char> {
    p.0 + seq!['='] + (if p.2 {
        quote::quote(p.1)
    } else {
        p.1
    })
}

/// Pairs `gap` spaces apart.
pub open spec fn pair_line(ps: Seq<(Seq<char>, Seq<char>, bool)>, gap: nat) -> Seq<char>
    decreases ps.len(),
{
    if ps.len() == 0 {
        Seq::empty()
    } else if ps.len() == 1 {
        pair_text(ps[0])
    } else {
        pair_text(ps[0]) + writer::sp(gap) + pair_line(ps.skip(1), gap)
    }
}

/// A pair that can be read back: a key, and a value that is quoted or bare.
pub open spec fn sound_pair(p: (Seq<char>, Seq<char>, bool)) -> bool {
    is_key(p.0) && p.0[0] != '#' && (p.2 || quote::is_bare(p.1))
}

pub open spec fn sound_pairs(ps: Seq<(Seq<char>, Seq<char>, bool)>) -> bool {
    forall|i: int| 0 <= i < ps.len() ==> sound_pair(#[trigger] ps[i])
}

/// The pairs without the word on how they are written.
pub open spec fn bare_of(ps: Seq<(Seq<char>, Seq<char>, bool)>) -> Seq<(Seq<char>, Seq<char>)> {
    ps.map_values(|p: (Seq<char>, Seq<char>, bool)| (p.0, p.1))
}

/// A pair with its value as the writer puts it.
pub open spec fn written(k: Seq<char>, v: Seq<char>) -> (Seq<char>, Seq<char>, bool) {
    (k, v, !quote::is_bare(v))
}

pub proof fn lemma_pair_line_of_two(
    a: (Seq<char>, Seq<char>, bool),
    b: (Seq<char>, Seq<char>, bool),
    gap: nat,
)
    ensures
        pair_line(seq![a, b], gap) == pair_text(a) + writer::sp(gap) + pair_text(b),
{
    assert(seq![a, b].skip(1) =~= seq![b]);
    assert(pair_line(seq![b], gap) == pair_text(b));
}

pub proof fn lemma_pair_line_of_three(
    a: (Seq<char>, Seq<char>, bool),
    b: (Seq<char>, Seq<char>, bool),
    c: (Seq<char>, Seq<char>, bool),
    gap: nat,
)
    ensures
        pair_line(seq![a, b, c], gap) == pair_text(a) + writer::sp(gap) + (pair_text(b)
            + writer::sp(gap) + pair_text(c)),
{
    assert(seq![a, b, c].skip(1) =~= seq![b, c]);
    lemma_pair_line_of_two(b, c, gap);
}

/// A written pair is the key, an equals sign and the written value.
pub proof fn lemma_written(k: Seq<char>, v: Seq<char>)
    ensures
        pair_text(written(k, v)) == k + seq!['='] + quote::value_text(v),
{
}

/// Laying out a front word leaves the rest to be laid out.
pub proof fn lemma_laid_word(w: Seq<char>, gap: nat, ts: Seq<(Seq<char>, nat)>, all: Seq<(Seq<char>, nat)>)
    requires
        all =~= seq![(w, gap)] + ts,
    ensures
        writer::laid(all) == w + writer::sp(gap) + writer::laid(ts),
{
    lemma_laid_front((w, gap), ts);
}

pub proof fn lemma_laid_last_word(w: Seq<char>)
    ensures
        writer::laid(seq![(w, 0nat)]) == w,
{
    reveal_with_fuel(writer::laid, 2);
    assert(writer::sp(0) =~= Seq::<char>::empty());
    assert(writer::laid(seq![(w, 0nat)]) =~= w);
}

proof fn lemma_pair_text(p: (Seq<char>, Seq<char>, bool))
    requires
        sound_pair(p),
    ensures
        calm(pair_text(p), false),
        one_line(pair_text(p)),
        pair_text(p).len() > 0,
        pair_text(p)[0] == p.0[0],
        !text::is_ws(pair_text(p)[0]),
        !text::is_ws(pair_text(p).last()),
{
    let (k, v, q) = p;
    let s = pair_text(p);
    let n = k.len() as int;
    assert(s[0] == k[0]);
    assert(s[n] == '=');
    if q {
        let e = quote::escaped(v, false);
        quote::lemma_escaped_line(v, false);
        quote::lemma_escaped_calm(v, false);
        assert(s =~= k + seq!['=', '"'] + e + seq!['"']);
        assert(s[n + 1] == '"');
        assert forall|i: int| 0 <= i < s.len() && #[trigger] s[i] == '#' implies i > 0
            && !text::is_ws(s[i - 1]) by {
            if i < n {
                assert(s[i] == k[i]);
                if i > 0 {
                    assert(s[i - 1] == k[i - 1]);
                }
            } else if n + 2 <= i < n + 2 + e.len() {
                assert(e[i - n - 2] == '#');
                if i > n + 2 {
                    assert(s[i - 1] == e[i - n - 3]);
                }
            }
        }
        assert forall|i: int| 0 <= i < s.len() implies #[trigger] s[i] != '\n' && s[i] != '\r' by {
            if i < n {
                assert(s[i] == k[i]);
                assert(!text::is_ws(k[i]));
            } else if n + 2 <= i < n + 2 + e.len() {
                assert(s[i] == e[i - n - 2]);
            }
        }
    } else {
        assert forall|i: int| 0 <= i < s.len() implies !text::is_ws(#[trigger] s[i]) by {
            if i < n {
                assert(s[i] == k[i]);
            } else if i > n {
                assert(s[i] == v[i - n - 1]);
            }
        }
    }
}

/// Pairs laid out on a line read back as the pairs, without a comment.
pub proof fn lemma_pair_line(ps: Seq<(Seq<char>, Seq<char>, bool)>, gap: nat)
    requires
        sound_pairs(ps),
        gap >= 1,
        ps.len() > 0,
    ensures
        quote::pairs_from(pair_line(ps, gap)) == bare_of(ps),
        quote::pairs(pair_line(ps, gap)) == bare_of(ps),
        calm(pair_line(ps, gap), false),
        one_line(pair_line(ps, gap)),
        pair_line(ps, gap).len() > 0,
        !text::is_ws(pair_line(ps, gap)[0]),
        !text::is_ws(pair_line(ps, gap).last()),
    decreases ps.len(),
{
    let p = ps[0];
    let (k, v, q) = p;
    let t = pair_text(p);
    let s = pair_line(ps, gap);
    let none = Seq::<char>::empty();
    assert(sound_pair(p));
    lemma_pair_text(p);
    let (g, r): (nat, Seq<char>) = if ps.len() == 1 {
        (0, none)
    } else {
        (gap, pair_line(ps.skip(1), gap))
    };
    let rest = ps.skip(1);
    if ps.len() > 1 {
        assert forall|i: int| 0 <= i < rest.len() implies sound_pair(#[trigger] rest[i]) by {
            assert(rest[i] == ps[i + 1]);
        }
        lemma_pair_line(rest, gap);
        let head = t + writer::sp(gap);
        assert(calm(head, false)) by {
            assert forall|i: int| 0 <= i < head.len() && #[trigger] head[i] == '#' implies (if i
                == 0 {
                false
            } else {
                !text::is_ws(head[i - 1])
            }) by {
                assert(i < t.len());
                assert(t[i] == '#');
                if i > 0 {
                    assert(head[i - 1] == t[i - 1]);
                }
            }
        }
        assert(head.last() == ' ');
        lemma_calm_add(head, r, false);
        assert forall|i: int| 0 <= i < s.len() implies #[trigger] s[i] != '\n' && s[i] != '\r' by {
            if i < t.len() {
                assert(s[i] == t[i]);
            } else if i >= head.len() {
                assert(s[i] == r[i - head.len()]);
            }
        }
        assert(s.last() == r.last());
        assert(s[0] == t[0]);
    } else {
        assert(quote::pairs_from(r) =~= bare_of(rest));
        assert(t + writer::sp(0) + none =~= t);
    }
    assert(s =~= t + writer::sp(g) + r);
    if q {
        lemma_quoted_pair(k, v, g, r);
    } else {
        lemma_bare_pair(k, v, g, r);
    }
    assert(seq![(k, v)] + bare_of(rest) =~= bare_of(ps));
    text::lemma_trim_tight(s);
}

/// A directive with pairs after it.
pub proof fn lemma_pair_directive(
    dir: Seq<char>,
    first: nat,
    ps: Seq<(Seq<char>, Seq<char>, bool)>,
    gap: nat,
)
    requires
        is_word(dir),
        sound_pairs(ps),
        first >= 1,
        gap >= 1,
        ps.len() > 0,
    ensures
        ({
            let r = pair_line(ps, gap);
            let raw = seq!['@'] + dir + writer::sp(first) + r;
            reads_as(raw, dir, r) && one_line(raw)
        }),
{
    lemma_pair_line(ps, gap);
    lemma_calm_directive(dir, first, pair_line(ps, gap));
    lemma_directive(dir, first, pair_line(ps, gap));
}

/// A directive with an index and pairs after it.
pub proof fn lemma_indexed_pairs(
    dir: Seq<char>,
    h: Seq<char>,
    ps: Seq<(Seq<char>, Seq<char>, bool)>,
    gap: nat,
)
    requires
        is_word(dir),
        is_quiet(h),
        sound_pairs(ps),
        gap >= 1,
        ps.len() > 0,
    ensures
        ({
            let r = pair_line(ps, gap);
            let args = h + writer::sp(2) + r;
            let raw = seq!['@'] + dir + writer::sp(1) + args;
            reads_as(raw, dir, args) && one_line(raw) && text::first_word(args) == (h, r)
        }),
{
    let r = pair_line(ps, gap);
    let args = h + writer::sp(2) + r;
    lemma_pair_line(ps, gap);
    let head = h + writer::sp(2);
    assert(calm(head, false)) by {
        assert forall|i: int| 0 <= i < head.len() && #[trigger] head[i] == '#' implies (if i == 0 {
            false
        } else {
            !text::is_ws(head[i - 1])
        }) by {
            assert(i < h.len());
            assert(head[i] == h[i]);
            if i > 0 {
                assert(head[i - 1] == h[i - 1]);
            }
        }
    }
    assert(head.last() == ' ');
    lemma_calm_add(head, r, false);
    assert(one_line(args)) by {
        assert forall|i: int| 0 <= i < args.len() implies #[trigger] args[i] != '\n' && args[i]
            != '\r' by {
            if i < h.len() {
                assert(args[i] == h[i]);
                assert(!text::is_ws(h[i]));
            } else if i >= head.len() {
                assert(args[i] == r[i - head.len()]);
            }
        }
    }
    assert(args[0] == h[0]);
    assert(args.last() == r.last());
    lemma_calm_directive(dir, 1, args);
    lemma_directive(dir, 1, args);
    lemma_first_word(h, 2, r);
}

proof fn lemma_calm_directive(dir: Seq<char>, gap: nat, r: Seq<char>)
    requires
        is_word(dir),
        gap >= 1,
        calm(r, false),
        one_line(r),
    ensures
        calm(seq!['@'] + dir + writer::sp(gap) + r, false),
        one_line(seq!['@'] + dir + writer::sp(gap) + r),
{
    let head = seq!['@'] + dir + writer::sp(gap);
    let raw = head + r;
    let n = dir.len() as int;
    assert(calm(head, false)) by {
        assert forall|i: int| 0 <= i < head.len() && #[trigger] head[i] == '#' implies (if i == 0 {
            false
        } else {
            !text::is_ws(head[i - 1])
        }) by {
            if 1 <= i < 1 + n {
                assert(head[i] == dir[i - 1]);
                if i > 1 {
                    assert(head[i - 1] == dir[i - 2]);
                }
            }
        }
    }
    assert(head.last() == ' ');
    lemma_calm_add(head, r, false);
    assert forall|i: int| 0 <= i < raw.len() implies #[trigger] raw[i] != '\n' && raw[i]
        != '\r' by {
        if 1 <= i < 1 + n {
            assert(raw[i] == dir[i - 1]);
            assert(!text::is_ws(dir[i - 1]));
        } else if i >= head.len() {
            assert(raw[i] == r[i - head.len()]);
        }
    }
}

// ---------------------------------------------------------------- lists

/// Items one space apart, as words.
pub open spec fn list_words(items: Seq<Seq<char>>) -> Seq<(Seq<char>, nat)> {
    Seq::new(
        items.len(),
        |i: int|
            (
                items[i],
                if i == items.len() - 1 {
                    0
                } else {
                    1
                },
            ),
    )
}

/// A list with every item followed by a space.
proof fn lemma_joined_open(items: Seq<Seq<char>>)
    requires
        items.len() > 0,
    ensures
        writer::joined(items, ' ') + writer::sp(1) == writer::laid(
            Seq::new(items.len(), |i: int| (items[i], 1nat)),
        ),
    decreases items.len(),
{
    let ts = Seq::new(items.len(), |i: int| (items[i], 1nat));
    let front = items.drop_last();
    assert(writer::sp(1) =~= seq![' ']);
    if items.len() == 1 {
        assert(ts.drop_last() =~= Seq::<(Seq<char>, nat)>::empty());
        reveal_with_fuel(writer::laid, 2);
        assert(writer::joined(items, ' ') + writer::sp(1) =~= writer::laid(ts));
    } else {
        lemma_joined_open(front);
        assert(ts.drop_last() =~= Seq::new(front.len(), |i: int| (front[i], 1nat)));
        assert(writer::joined(items, ' ') + writer::sp(1) =~= writer::laid(ts));
    }
}

pub proof fn lemma_joined_laid(items: Seq<Seq<char>>)
    requires
        items.len() > 0,
    ensures
        writer::joined(items, ' ') == writer::laid(list_words(items)),
{
    let ts = list_words(items);
    let front = items.drop_last();
    assert(writer::sp(0) =~= Seq::<char>::empty());
    assert(writer::sp(1) =~= seq![' ']);
    if items.len() == 1 {
        assert(ts.drop_last() =~= Seq::<(Seq<char>, nat)>::empty());
        reveal_with_fuel(writer::laid, 2);
        assert(writer::joined(items, ' ') =~= writer::laid(ts));
    } else {
        lemma_joined_open(front);
        assert(ts.drop_last() =~= Seq::new(front.len(), |i: int| (front[i], 1nat)));
        assert(writer::joined(items, ' ') =~= writer::laid(ts));
    }
}

/// An indented list reads as its items.
pub proof fn lemma_list_line(items: Seq<Seq<char>>)
    requires
        items.len() > 0,
        forall|i: int| 0 <= i < items.len() ==> is_quiet(#[trigger] items[i]),
    ensures
        ({
            let raw = writer::sp(2) + writer::joined(items, ' ');
            let line = text::trim(text::uncomment(raw));
            &&& one_line(raw)
            &&& line.len() > 0
            &&& line[0] == items[0][0]
            &&& text::words(line) == items
        }),
{
    let ts = list_words(items);
    lemma_joined_laid(items);
    assert forall|i: int| 0 <= i < ts.len() implies is_quiet(#[trigger] ts[i].0) by {
        assert(is_quiet(items[i]));
    }
    assert forall|i: int| 0 <= i < ts.len() implies is_word(#[trigger] ts[i].0) by {
        assert(is_quiet(items[i]));
    }
    lemma_laid_one_line(2, ts);
    lemma_indented(2, ts);
    assert(firsts(ts) =~= items);
}

// ---------------------------------------------------------------- quoted fields

/// Quoted pairs, each after a space.
pub open spec fn spread(ps: Seq<(Seq<char>, Seq<char>)>) -> Seq<char>
    decreases ps.len(),
{
    if ps.len() == 0 {
        Seq::empty()
    } else {
        seq![' '] + (ps[0].0 + seq!['='] + quote::quote(ps[0].1)) + spread(ps.skip(1))
    }
}

/// Pairs, all of them in quotes.
pub open spec fn all_quoted(ps: Seq<(Seq<char>, Seq<char>)>) -> Seq<
    (Seq<char>, Seq<char>, bool),
> {
    ps.map_values(|p: (Seq<char>, Seq<char>)| (p.0, p.1, true))
}

pub proof fn lemma_spread_line(ps: Seq<(Seq<char>, Seq<char>)>)
    requires
        ps.len() > 0,
    ensures
        spread(ps) == seq![' '] + pair_line(all_quoted(ps), 1),
        bare_of(all_quoted(ps)) == ps,
    decreases ps.len(),
{
    let qs = all_quoted(ps);
    let rest = ps.skip(1);
    assert(bare_of(qs) =~= ps);
    assert(qs.skip(1) =~= all_quoted(rest));
    assert(writer::sp(1) =~= seq![' ']);
    if rest.len() == 0 {
        assert(spread(rest) =~= Seq::<char>::empty());
    } else {
        lemma_spread_line(rest);
    }
    assert(spread(ps) =~= seq![' '] + pair_line(qs, 1));
}

pub proof fn lemma_spread_add(a: Seq<(Seq<char>, Seq<char>)>, b: Seq<(Seq<char>, Seq<char>)>)
    ensures
        spread(a + b) == spread(a) + spread(b),
    decreases a.len(),
{
    if a.len() == 0 {
        assert(a + b =~= b);
        assert(spread(a) + spread(b) =~= spread(b));
    } else {
        assert((a + b).skip(1) =~= a.skip(1) + b);
        assert((a + b)[0] == a[0]);
        lemma_spread_add(a.skip(1), b);
        assert(spread(a + b) =~= spread(a) + spread(b));
    }
}

pub proof fn lemma_calm_add(a: Seq<char>, b: Seq<char>, w: bool)
    requires
        calm(a, w),
        calm(
            b,
            if a.len() == 0 {
                w
            } else {
                !text::is_ws(a.last())
            },
        ),
    ensures
        calm(a + b, w),
{
    let s = a + b;
    assert forall|i: int| 0 <= i < s.len() && #[trigger] s[i] == '#' implies (if i == 0 {
        w
    } else {
        !text::is_ws(s[i - 1])
    }) by {
        if i < a.len() {
            assert(a[i] == '#');
        } else {
            assert(b[i - a.len()] == '#');
            if i > a.len() {
                assert(s[i - 1] == b[i - a.len() - 1]);
            } else if i > 0 {
                assert(s[i - 1] == a.last());
            }
        }
    }
}

} // verus!
