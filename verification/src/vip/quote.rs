//! Quoted values: what is written for a text in double quotes, and what the
//! quotes read back as.
//!
//! A backslash stands before what would end the value or the line, and a
//! character that does not print is written by its number. A `#` after a
//! blank is written by its number too, for it would start a comment.

use vstd::prelude::*;

use crate::text;

verus! {

// ---------------------------------------------------------------- writing

/// A character that is written as it is: printable ASCII, and of the others
/// what the standard library prints without an escape.
pub open spec fn prints(c: char) -> bool {
    if c as u32 > 127 {
        text::debug_char_text(c).len() == 3
    } else {
        ' ' <= c && c <= '~'
    }
}

/// A number in lower-case hexadecimal.
pub open spec fn low_hex(n: nat) -> Seq<char> {
    text::lower(text::numeral(n, 16))
}

/// What a character is written as, after a blank or not.
pub open spec fn escape_of(c: char, after_ws: bool) -> Seq<char> {
    if c == '"' {
        seq!['\\', '"']
    } else if c == '\\' {
        seq!['\\', '\\']
    } else if c == '\n' {
        seq!['\\', 'n']
    } else if c == '\r' {
        seq!['\\', 'r']
    } else if c == '\t' {
        seq!['\\', 't']
    } else if c == '\0' {
        seq!['\\', '0']
    } else if prints(c) && !(c == '#' && after_ws) {
        seq![c]
    } else {
        seq!['\\', 'u', '{'] + low_hex(c as nat) + seq!['}']
    }
}

pub open spec fn escaped(v: Seq<char>, after_ws: bool) -> Seq<char>
    decreases v.len(),
{
    if v.len() == 0 {
        Seq::empty()
    } else {
        escape_of(v[0], after_ws) + escaped(v.skip(1), text::is_ws(v[0]))
    }
}

/// A text in double quotes.
pub open spec fn quote(v: Seq<char>) -> Seq<char> {
    seq!['"'] + escaped(v, false) + seq!['"']
}

/// A value that reads back without quotes.
pub open spec fn is_bare(v: Seq<char>) -> bool {
    &&& v.len() > 0 ==> v[0] != '"'
    &&& forall|i: int| 0 <= i < v.len() ==> !text::is_ws(#[trigger] v[i])
}

/// A value as it is written: in quotes where it needs them.
pub open spec fn value_text(v: Seq<char>) -> Seq<char> {
    if is_bare(v) {
        v
    } else {
        quote(v)
    }
}

fn does_print(c: char) -> (r: bool)
    ensures
        r == prints(c),
{
    if c as u32 > 127 {
        let d: String = text::debug_char(c);
        let v: Vec<char> = text::chars_of(d.as_str());
        v.len() == 3
    } else {
        ' ' <= c && c <= '~'
    }
}

fn put_escape(out: &mut Vec<char>, c: char, after_ws: bool)
    ensures
        final(out)@ == old(out)@ + escape_of(c, after_ws),
{
    let ghost start = out@;
    if c == '"' || c == '\\' {
        out.push('\\');
        out.push(c);
    } else if c == '\n' {
        out.push('\\');
        out.push('n');
    } else if c == '\r' {
        out.push('\\');
        out.push('r');
    } else if c == '\t' {
        out.push('\\');
        out.push('t');
    } else if c == '\0' {
        out.push('\\');
        out.push('0');
    } else if does_print(c) && !(c == '#' && after_ws) {
        out.push(c);
    } else {
        out.push('\\');
        out.push('u');
        out.push('{');
        let n: Vec<char> = text::numeral_of(c as u32 as u128, 16);
        let low: Vec<char> = text::lower_of(n.as_slice());
        text::put(out, low.as_slice());
        out.push('}');
    }
    assert(out@ =~= start + escape_of(c, after_ws));
}

/// Writes a text in double quotes.
pub fn put_quoted(out: &mut Vec<char>, s: &str)
    ensures
        final(out)@ == old(out)@ + quote(s@),
{
    let ghost start = out@;
    let v: Vec<char> = text::chars_of(s);
    out.push('"');
    let ghost open = out@;
    let mut after_ws: bool = false;
    assert(v@.skip(0) =~= v@);
    for i in 0..v.len()
        invariant
            out@ + escaped(v@.skip(i as int), after_ws) == open + escaped(v@, false),
    {
        let ghost before = out@;
        put_escape(out, v[i], after_ws);
        assert(v@.skip(i as int)[0] == v@[i as int]);
        assert(v@.skip(i as int).skip(1) =~= v@.skip(i + 1));
        after_ws = text::is_white(v[i]);
        assert(out@ + escaped(v@.skip(i + 1), after_ws) =~= open + escaped(v@, false));
    }
    assert(v@.skip(v@.len() as int).len() == 0);
    assert(out@ =~= open + escaped(v@, false));
    out.push('"');
    assert(out@ =~= start + quote(s@));
}

fn does_read_bare(v: &[char]) -> (r: bool)
    ensures
        r == is_bare(v@),
{
    if v.len() > 0 && v[0] == '"' {
        return false;
    }
    for i in 0..v.len()
        invariant
            forall|k: int| 0 <= k < i ==> !text::is_ws(#[trigger] v@[k]),
    {
        if text::is_white(v[i]) {
            assert(text::is_ws(v@[i as int]));
            return false;
        }
    }
    true
}

/// Writes a value, in quotes where it needs them.
pub fn put_value(out: &mut Vec<char>, s: &str)
    ensures
        final(out)@ == old(out)@ + value_text(s@),
{
    let v: Vec<char> = text::chars_of(s);
    if does_read_bare(v.as_slice()) {
        text::put_str(out, s);
    } else {
        put_quoted(out, s);
    }
}

// ---------------------------------------------------------------- reading

/// Where a quoted value ends: at the first quote that no backslash stands
/// before, or at the end of the text.
pub open spec fn close_index(s: Seq<char>) -> nat
    decreases s.len(),
{
    if s.len() == 0 || s[0] == '"' {
        0
    } else if s[0] == '\\' && s.len() >= 2 {
        2 + close_index(s.skip(2))
    } else {
        1 + close_index(s.skip(1))
    }
}

/// A number that is a character's.
pub open spec fn is_scalar(n: nat) -> bool {
    n < 0xD800 || 0xE000 <= n <= 0x10FFFF
}

/// The character of an escape by number at the start of a text, and the
/// escape's length.
pub open spec fn number_escape(s: Seq<char>) -> Option<(char, nat)> {
    let t = s.skip(3);
    let k = text::char_index(t, '}');
    if s.len() > 3 && s[1] == 'u' && s[2] == '{' && 0 < k < t.len() {
        match text::digits_value(t.take(k as int), 16) {
            Some(n) => if is_scalar(n) {
                Some(((n as u32) as char, 4 + k))
            } else {
                None
            },
            None => None,
        }
    } else {
        None
    }
}

/// The character that an escape at the start of a text stands for, and the
/// escape's length. A backslash before anything else stands for itself.
pub open spec fn escape_at(s: Seq<char>) -> Option<(char, nat)> {
    if s.len() < 2 || s[0] != '\\' {
        None
    } else if s[1] == '"' || s[1] == '\\' || s[1] == '\'' {
        Some((s[1], 2))
    } else if s[1] == 'n' {
        Some(('\n', 2))
    } else if s[1] == 'r' {
        Some(('\r', 2))
    } else if s[1] == 't' {
        Some(('\t', 2))
    } else if s[1] == '0' {
        Some(('\0', 2))
    } else {
        number_escape(s)
    }
}

/// A text with its escapes undone.
pub open spec fn plain_of(s: Seq<char>) -> Seq<char>
    decreases s.len(),
{
    if s.len() == 0 {
        Seq::empty()
    } else {
        match escape_at(s) {
            Some((c, n)) => {
                proof {
                    lemma_escape_at(s);
                }
                seq![c] + plain_of(s.skip(n as int))
            },
            None => seq![s[0]] + plain_of(s.skip(1)),
        }
    }
}

pub proof fn lemma_escape_at(s: Seq<char>)
    ensures
        match escape_at(s) {
            Some((c, n)) => 2 <= n <= s.len(),
            None => true,
        },
{
    if s.len() > 3 {
        text::lemma_char_index(s.skip(3), '}');
    }
}

pub proof fn lemma_close_index(s: Seq<char>)
    ensures
        close_index(s) <= s.len(),
        close_index(s) < s.len() ==> s[close_index(s) as int] == '"',
    decreases s.len(),
{
    if s.len() == 0 || s[0] == '"' {
    } else if s[0] == '\\' && s.len() >= 2 {
        lemma_close_index(s.skip(2));
    } else {
        lemma_close_index(s.skip(1));
    }
}

fn find_close(s: &[char]) -> (r: usize)
    ensures
        r == close_index(s@),
        r <= s@.len(),
{
    proof {
        lemma_close_index(s@);
    }
    let mut i: usize = 0;
    assert(s@.skip(0) =~= s@);
    while i < s.len() && s[i] != '"'
        invariant
            i <= s@.len(),
            i + close_index(s@.skip(i as int)) == close_index(s@),
            close_index(s@) <= s@.len(),
        decreases s@.len() - i,
    {
        assert(s@.skip(i as int)[0] == s@[i as int]);
        assert(s@.skip(i as int).skip(1) =~= s@.skip(i + 1));
        if s[i] == '\\' && s.len() - i >= 2 {
            assert(s@.skip(i as int).skip(2) =~= s@.skip(i + 2));
            i = i + 2;
        } else {
            i = i + 1;
        }
    }
    i
}

fn read_number_escape(s: &[char]) -> (r: Option<(char, usize)>)
    ensures
        match r {
            Some((c, n)) => number_escape(s@) == Some((c, n as nat)),
            None => number_escape(s@) is None,
        },
{
    if s.len() <= 3 || s[1] != 'u' || s[2] != '{' {
        return None;
    }
    let t: &[char] = text::tail(s, 3);
    let k: usize = text::find_char(t, '}');
    let n: usize = t.len();
    if k == 0 || k >= n {
        return None;
    }
    match text::read_digits(text::head(t, k), 16, 0x10FFFF) {
        Some(v) => match char::from_u32(v as u32) {
            Some(c) => {
                assert(is_scalar(v as nat));
                Some((c, 4 + k))
            },
            None => None,
        },
        None => None,
    }
}

fn read_escape(s: &[char]) -> (r: Option<(char, usize)>)
    ensures
        match r {
            Some((c, n)) => escape_at(s@) == Some((c, n as nat)),
            None => escape_at(s@) is None,
        },
{
    if s.len() < 2 || s[0] != '\\' {
        return None;
    }
    let c: char = s[1];
    if c == '"' || c == '\\' || c == '\'' {
        Some((c, 2))
    } else if c == 'n' {
        Some(('\n', 2))
    } else if c == 'r' {
        Some(('\r', 2))
    } else if c == 't' {
        Some(('\t', 2))
    } else if c == '0' {
        Some(('\0', 2))
    } else {
        read_number_escape(s)
    }
}

fn undo_escapes(s: &[char]) -> (r: Vec<char>)
    ensures
        r@ == plain_of(s@),
{
    let mut out: Vec<char> = Vec::new();
    let mut i: usize = 0;
    assert(s@.skip(0) =~= s@);
    assert(out@ + plain_of(s@) =~= plain_of(s@));
    while i < s.len()
        invariant
            i <= s@.len(),
            out@ + plain_of(s@.skip(i as int)) == plain_of(s@),
        decreases s@.len() - i,
    {
        let rest: &[char] = text::tail(s, i);
        let ghost before = out@;
        assert(rest@ == s@.skip(i as int));
        proof {
            lemma_escape_at(rest@);
        }
        match read_escape(rest) {
            Some((c, n)) => {
                out.push(c);
                assert(rest@.skip(n as int) =~= s@.skip(i + n));
                assert(before + (seq![c] + plain_of(s@.skip(i + n))) =~= out@ + plain_of(
                    s@.skip(i + n),
                ));
                i = i + n;
            },
            None => {
                out.push(s[i]);
                assert(rest@[0] == s@[i as int]);
                assert(rest@.skip(1) =~= s@.skip(i + 1));
                assert(before + (seq![rest@[0]] + plain_of(s@.skip(i + 1))) =~= out@ + plain_of(
                    s@.skip(i + 1),
                ));
                i = i + 1;
            },
        }
    }
    assert(s@.skip(i as int).len() == 0);
    assert(out@ + plain_of(s@.skip(i as int)) =~= out@);
    out
}

// ---------------------------------------------------------------- pairs

/// The value at the start of a text, and what follows it.
pub open spec fn value_of(r: Seq<char>) -> (Seq<char>, Seq<char>) {
    if r.len() > 0 && r[0] == '"' {
        let q = r.skip(1);
        let end = close_index(q) as int;
        (
            plain_of(q.take(end)),
            if end < q.len() {
                q.skip(end + 1)
            } else {
                Seq::empty()
            },
        )
    } else {
        let end = text::ws_index(r) as int;
        (r.take(end), r.skip(end))
    }
}

pub proof fn lemma_value_of(r: Seq<char>)
    ensures
        value_of(r).1.len() <= r.len(),
{
    if r.len() > 0 && r[0] == '"' {
        lemma_close_index(r.skip(1));
    } else {
        text::lemma_ws_index(r);
    }
}

pub open spec fn pairs_from(s: Seq<char>) -> Seq<(Seq<char>, Seq<char>)>
    decreases s.len(),
{
    let eq = text::char_index(s, '=') as int;
    if s.len() == 0 || eq >= s.len() {
        Seq::empty()
    } else {
        let r = s.skip(eq + 1);
        let (value, after) = value_of(r);
        proof {
            lemma_value_of(r);
            text::lemma_ink_index(after);
        }
        seq![(text::trim(s.take(eq)), value)] + pairs_from(text::trim_start(after))
    }
}

/// `key=value` pairs, where a value in double quotes may hold anything.
pub open spec fn pairs(s: Seq<char>) -> Seq<(Seq<char>, Seq<char>)> {
    pairs_from(text::trim(s))
}

pub open spec fn pair_views(v: Seq<(Vec<char>, Vec<char>)>) -> Seq<(Seq<char>, Seq<char>)> {
    v.map_values(|p: (Vec<char>, Vec<char>)| (p.0@, p.1@))
}

/// Splits an argument list into `key=value` pairs.
pub fn kv_quoted(s: &[char]) -> (r: Vec<(Vec<char>, Vec<char>)>)
    ensures
        pair_views(r@) == pairs(s@),
{
    let mut out: Vec<(Vec<char>, Vec<char>)> = Vec::new();
    let mut rest: &[char] = text::trimmed(s);
    assert(pair_views(out@) =~= Seq::<(Seq<char>, Seq<char>)>::empty());
    assert(pair_views(out@) + pairs_from(rest@) =~= pairs(s@));
    while rest.len() > 0
        invariant
            pair_views(out@) + pairs_from(rest@) == pairs(s@),
        decreases rest@.len(),
    {
        let eq: usize = text::find_char(rest, '=');
        if eq == rest.len() {
            assert(pair_views(out@) + pairs_from(rest@) =~= pair_views(out@));
            return out;
        }
        let key: Vec<char> = text::copy_of(text::trimmed(text::head(rest, eq)));
        let r: &[char] = text::tail(rest, eq + 1);
        let value: Vec<char>;
        let after: &[char];
        if r.len() > 0 && r[0] == '"' {
            let q: &[char] = text::tail(r, 1);
            let end: usize = find_close(q);
            value = undo_escapes(text::head(q, end));
            if end < q.len() {
                after = text::tail(q, end + 1);
            } else {
                after = text::tail(q, end);
                assert(after@ =~= Seq::<char>::empty());
            }
        } else {
            let end: usize = text::find_ws(r);
            value = text::copy_of(text::head(r, end));
            after = text::tail(r, end);
        }
        proof {
            assert((value@, after@) == value_of(r@));
            lemma_value_of(r@);
            text::lemma_ink_index(after@);
            assert(pair_views(out@.push((key, value))) =~= pair_views(out@).push((key@, value@)));
            assert(pair_views(out@).push((key@, value@)) + pairs_from(text::trim_start(after@))
                =~= pair_views(out@) + (seq![(key@, value@)] + pairs_from(
                text::trim_start(after@),
            )));
        }
        out.push((key, value));
        rest = text::trimmed_start(after);
    }
    assert(pair_views(out@) + pairs_from(rest@) =~= pair_views(out@));
    out
}

// ---------------------------------------------------------------- reading what was written

proof fn lemma_low_digits(s: Seq<char>)
    ensures
        text::digits_value(text::lower(s), 16) == text::digits_value(s, 16),
    decreases s.len(),
{
    if s.len() > 0 {
        lemma_low_digits(s.drop_last());
        assert(text::lower(s).drop_last() =~= text::lower(s.drop_last()));
        assert(text::lower(s).last() == text::low(s.last()));
    }
}

/// A number in hexadecimal reads back, and holds letters and digits alone.
proof fn lemma_low_hex(n: nat)
    ensures
        text::digits_value(low_hex(n), 16) == Some(n),
        low_hex(n).len() >= 1,
        forall|i: int| 0 <= i < low_hex(n).len() ==> text::is_alnum(#[trigger] low_hex(n)[i]),
{
    let s = text::numeral(n, 16);
    text::lemma_numeral(n, 16);
    lemma_low_digits(s);
    assert forall|i: int| 0 <= i < low_hex(n).len() implies text::is_alnum(
        #[trigger] low_hex(n)[i],
    ) by {
        assert(text::is_alnum(s[i]));
        assert(low_hex(n)[i] == text::low(s[i]));
    }
}

proof fn lemma_close_past(p: Seq<char>, t: Seq<char>)
    requires
        forall|i: int| 0 <= i < p.len() ==> #[trigger] p[i] != '"' && p[i] != '\\',
    ensures
        close_index(p + t) == p.len() + close_index(t),
    decreases p.len(),
{
    if p.len() == 0 {
        assert(p + t =~= t);
    } else {
        assert((p + t)[0] == p[0]);
        assert((p + t).skip(1) =~= p.skip(1) + t);
        lemma_close_past(p.skip(1), t);
    }
}

/// An escape is passed over whole, and undone to its character.
proof fn lemma_escape(c: char, w: bool, t: Seq<char>)
    ensures
        close_index(escape_of(c, w) + t) == escape_of(c, w).len() + close_index(t),
        plain_of(escape_of(c, w) + t) == seq![c] + plain_of(t),
{
    let e = escape_of(c, w);
    let s = e + t;
    if e.len() == 1 {
        assert(s[0] == c);
        assert(s.skip(1) =~= t);
    } else if e.len() == 2 {
        assert(s[0] == e[0] && s[1] == e[1]);
        assert(s.skip(2) =~= t);
    } else {
        let h = low_hex(c as nat);
        lemma_low_hex(c as nat);
        assert(s[0] == '\\' && s[1] == 'u' && s[2] == '{');
        assert(s.skip(2) =~= seq!['{'] + h + seq!['}'] + t);
        let p = seq!['{'] + h + seq!['}'];
        assert forall|i: int| 0 <= i < p.len() implies #[trigger] p[i] != '"' && p[i] != '\\' by {
            if 1 <= i < 1 + h.len() {
                assert(p[i] == h[i - 1]);
                assert(text::is_alnum(h[i - 1]));
            }
        }
        lemma_close_past(p, t);
        let u = s.skip(3);
        assert(u =~= h + seq!['}'] + t);
        assert forall|i: int| 0 <= i < h.len() implies #[trigger] u[i] != '}' by {
            assert(u[i] == h[i]);
            assert(text::is_alnum(h[i]));
        }
        assert(u[h.len() as int] == '}');
        text::lemma_char_index_is(u, '}', h.len() as int);
        assert(u.take(h.len() as int) =~= h);
        assert(s.skip((4 + h.len()) as int) =~= t);
    }
}

/// What was written in quotes ends at the closing quote, and reads back.
pub proof fn lemma_quoted(v: Seq<char>, w: bool, r: Seq<char>)
    ensures
        close_index(escaped(v, w) + (seq!['"'] + r)) == escaped(v, w).len(),
        plain_of(escaped(v, w)) == v,
    decreases v.len(),
{
    let t = seq!['"'] + r;
    if v.len() == 0 {
        assert(escaped(v, w) + t =~= t);
        assert(plain_of(escaped(v, w)) =~= v);
    } else {
        let e = escape_of(v[0], w);
        let rest = escaped(v.skip(1), text::is_ws(v[0]));
        lemma_quoted(v.skip(1), text::is_ws(v[0]), r);
        lemma_escape(v[0], w, rest + t);
        lemma_escape(v[0], w, rest);
        assert(escaped(v, w) + t =~= e + (rest + t));
        assert(seq![v[0]] + v.skip(1) =~= v);
    }
}

/// What is written in quotes stays on its line.
pub proof fn lemma_escaped_line(v: Seq<char>, w: bool)
    ensures
        forall|i: int|
            0 <= i < escaped(v, w).len() ==> #[trigger] escaped(v, w)[i] != '\n' && escaped(v, w)[i]
                != '\r',
    decreases v.len(),
{
    if v.len() > 0 {
        let e = escape_of(v[0], w);
        let t = escaped(v.skip(1), text::is_ws(v[0]));
        lemma_escaped_line(v.skip(1), text::is_ws(v[0]));
        lemma_low_hex(v[0] as nat);
        let s = escaped(v, w);
        assert forall|i: int| 0 <= i < s.len() implies #[trigger] s[i] != '\n' && s[i] != '\r' by {
            if i < e.len() {
                assert(s[i] == e[i]);
                if e.len() > 2 && 3 <= i < e.len() - 1 {
                    assert(e[i] == low_hex(v[0] as nat)[i - 3]);
                    assert(text::is_alnum(low_hex(v[0] as nat)[i - 3]));
                }
            } else {
                assert(s[i] == t[i - e.len()]);
            }
        }
    }
}

/// What is written in quotes starts no comment.
pub proof fn lemma_escaped_calm(v: Seq<char>, w: bool)
    ensures
        forall|i: int|
            0 <= i < escaped(v, w).len() && #[trigger] escaped(v, w)[i] == '#' ==> (if i == 0 {
                !w
            } else {
                !text::is_ws(escaped(v, w)[i - 1])
            }),
    decreases v.len(),
{
    if v.len() > 0 {
        let e = escape_of(v[0], w);
        let ws = text::is_ws(v[0]);
        let t = escaped(v.skip(1), ws);
        lemma_escaped_calm(v.skip(1), ws);
        lemma_low_hex(v[0] as nat);
        let s = escaped(v, w);
        assert forall|i: int| 0 <= i < s.len() && #[trigger] s[i] == '#' implies (if i == 0 {
            !w
        } else {
            !text::is_ws(s[i - 1])
        }) by {
            if i < e.len() {
                assert(s[i] == e[i]);
                if e.len() > 2 && 3 <= i < e.len() - 1 {
                    assert(e[i] == low_hex(v[0] as nat)[i - 3]);
                    assert(text::is_alnum(low_hex(v[0] as nat)[i - 3]));
                }
            } else {
                let j = i - e.len();
                assert(t[j] == '#');
                if j > 0 {
                    assert(s[i - 1] == t[j - 1]);
                } else {
                    assert(s[i - 1] == e[e.len() - 1]);
                    assert(!ws);
                    if e.len() == 1 {
                        assert(e[0] == v[0]);
                    }
                }
            }
        }
    }
}

/// Any text in quotes reads back as itself, whatever follows.
pub proof fn law_quotes_read_back(v: Seq<char>, r: Seq<char>)
    ensures
        value_of(quote(v) + r) == (v, r),
{
    let e = escaped(v, false);
    let s = quote(v) + r;
    lemma_quoted(v, false, r);
    assert(s[0] == '"');
    assert(s.skip(1) =~= e + (seq!['"'] + r));
    assert(s.skip(1).take(e.len() as int) =~= e);
    assert(s.skip(1).skip((e.len() + 1) as int) =~= r);
}

} // verus!
