//! Plain-text building blocks shared by the file formats: whitespace,
//! trimming, splitting, and integers in decimal and hexadecimal.
//!
//! Text is handled as sequences of characters. Every function here states
//! its result over the sequence model, so the parsers built on top of it
//! read as equations between sequences.

use vstd::prelude::*;
use vstd::string::StringExecFns;

verus! {

// ---------------------------------------------------------------- characters

/// The characters with the Unicode `White_Space` property.
pub open spec fn is_ws(c: char) -> bool {
    let n = c as u32;
    ||| 9 <= n <= 13
    ||| n == 0x20
    ||| n == 0x85
    ||| n == 0xA0
    ||| n == 0x1680
    ||| 0x2000 <= n <= 0x200A
    ||| n == 0x2028
    ||| n == 0x2029
    ||| n == 0x202F
    ||| n == 0x205F
    ||| n == 0x3000
}

pub fn is_white(c: char) -> (r: bool)
    ensures
        r == is_ws(c),
{
    let n: u32 = c as u32;
    (9 <= n && n <= 13) || n == 0x20 || n == 0x85 || n == 0xA0 || n == 0x1680 || (0x2000 <= n && n
        <= 0x200A) || n == 0x2028 || n == 0x2029 || n == 0x202F || n == 0x205F || n == 0x3000
}

pub open spec fn is_upper(c: char) -> bool {
    'A' <= c && c <= 'Z'
}

pub open spec fn is_lower(c: char) -> bool {
    'a' <= c && c <= 'z'
}

pub open spec fn is_digit(c: char) -> bool {
    '0' <= c && c <= '9'
}

pub open spec fn is_alnum(c: char) -> bool {
    is_upper(c) || is_lower(c) || is_digit(c)
}

/// ASCII upper case of one character; anything else is unchanged.
pub open spec fn up(c: char) -> char {
    if is_lower(c) {
        ((c as u32 - 32) as u32) as char
    } else {
        c
    }
}

/// ASCII lower case of one character; anything else is unchanged.
pub open spec fn low(c: char) -> char {
    if is_upper(c) {
        ((c as u32 + 32) as u32) as char
    } else {
        c
    }
}

pub fn to_upper(c: char) -> (r: char)
    ensures
        r == up(c),
{
    if 'a' <= c && c <= 'z' {
        let n: u8 = c as u8;
        (n - 32) as char
    } else {
        c
    }
}

pub fn to_lower(c: char) -> (r: char)
    ensures
        r == low(c),
{
    if 'A' <= c && c <= 'Z' {
        let n: u8 = c as u8;
        (n + 32) as char
    } else {
        c
    }
}

pub open spec fn upper(s: Seq<char>) -> Seq<char> {
    s.map_values(|c: char| up(c))
}

pub open spec fn lower(s: Seq<char>) -> Seq<char> {
    s.map_values(|c: char| low(c))
}

pub fn upper_of(s: &[char]) -> (r: Vec<char>)
    ensures
        r@ == upper(s@),
{
    let mut r: Vec<char> = Vec::new();
    for i in 0..s.len()
        invariant
            r@ == upper(s@.take(i as int)),
    {
        r.push(to_upper(s[i]));
        assert(s@.take(i + 1) =~= s@.take(i as int).push(s@[i as int]));
        assert(r@ =~= upper(s@.take(i + 1)));
    }
    assert(s@.take(s@.len() as int) =~= s@);
    r
}

pub fn lower_of(s: &[char]) -> (r: Vec<char>)
    ensures
        r@ == lower(s@),
{
    let mut r: Vec<char> = Vec::new();
    for i in 0..s.len()
        invariant
            r@ == lower(s@.take(i as int)),
    {
        r.push(to_lower(s[i]));
        assert(s@.take(i + 1) =~= s@.take(i as int).push(s@[i as int]));
        assert(r@ =~= lower(s@.take(i + 1)));
    }
    assert(s@.take(s@.len() as int) =~= s@);
    r
}

// ---------------------------------------------------------------- strings

/// `String::push`: appends one character.
pub assume_specification[ String::push ](s: &mut String, c: char)
    ensures
        final(s)@ == old(s)@.push(c),
;

/// `char::from_u32`: the character with a number, where there is one. The
/// numbers of surrogates and those above `0x10FFFF` are no character's.
pub assume_specification[ char::from_u32 ](i: u32) -> (r: Option<char>)
    ensures
        match r {
            Some(c) => c == i as char && (i < 0xD800 || 0xE000 <= i <= 0x10FFFF),
            None => 0xD800 <= i < 0xE000 || i > 0x10FFFF,
        },
;

/// The character with the number of the first byte that a character has in
/// UTF-8.
pub open spec fn lead(c: char) -> char {
    let n = c as u32;
    if n < 0x80 {
        c
    } else if n < 0x800 {
        ((0xC0 + n / 0x40) as u32) as char
    } else if n < 0x1_0000 {
        ((0xE0 + n / 0x1000) as u32) as char
    } else {
        ((0xF0 + n / 0x4_0000) as u32) as char
    }
}

pub fn lead_of(c: char) -> (r: char)
    ensures
        r == lead(c),
{
    let n: u32 = c as u32;
    if n < 0x80 {
        c
    } else if n < 0x800 {
        (0xC0 + n / 0x40) as u8 as char
    } else if n < 0x1_0000 {
        (0xE0 + n / 0x1000) as u8 as char
    } else {
        (0xF0 + n / 0x4_0000) as u8 as char
    }
}

/// What the standard library's debug formatting makes of a character.
pub uninterp spec fn debug_char_text(c: char) -> Seq<char>;

/// The `{:?}` formatting of `char`: a function of the character alone. Which
/// characters it escapes is not stated here.
#[verifier::external_body]
pub(crate) fn debug_char(c: char) -> (r: String)
    ensures
        r@ == debug_char_text(c),
{
    format!("{:?}", c)
}

/// What the standard library's debug formatting makes of a string: double
/// quotes around it, and escapes for what does not print.
pub uninterp spec fn debug_text(s: Seq<char>) -> Seq<char>;

/// The `{:?}` formatting of `str`: a function of the string alone. Which
/// characters it escapes is not stated here.
#[verifier::external_body]
pub(crate) fn debug_of(s: &str) -> (r: String)
    ensures
        r@ == debug_text(s@),
{
    format!("{:?}", s)
}

/// The characters of a string.
pub fn chars_of(s: &str) -> (v: Vec<char>)
    ensures
        v@ == s@,
{
    let mut v: Vec<char> = Vec::new();
    for c in it: s.chars()
        invariant
            v@ == it.seq().take(it.index() as int),
            it.seq() == s@,
    {
        v.push(c);
    }
    v
}

/// A string holding the given characters.
pub fn string_of(s: &[char]) -> (r: String)
    ensures
        r@ == s@,
{
    let mut r: String = String::new();
    for i in 0..s.len()
        invariant
            r@ == s@.take(i as int),
    {
        r.push(s[i]);
        assert(s@.take(i + 1) =~= s@.take(i as int).push(s@[i as int]));
    }
    assert(s@.take(s@.len() as int) =~= s@);
    r
}

/// A copy of a run of characters.
pub fn copy_of(s: &[char]) -> (r: Vec<char>)
    ensures
        r@ == s@,
{
    let mut r: Vec<char> = Vec::new();
    for i in 0..s.len()
        invariant
            r@ == s@.take(i as int),
    {
        r.push(s[i]);
        assert(s@.take(i + 1) =~= s@.take(i as int).push(s@[i as int]));
    }
    assert(s@.take(s@.len() as int) =~= s@);
    r
}

pub fn same(a: &[char], b: &[char]) -> (r: bool)
    ensures
        r == (a@ == b@),
{
    if a.len() != b.len() {
        return false;
    }
    for i in 0..a.len()
        invariant
            a.len() == b.len(),
            forall|k: int| 0 <= k < i ==> a@[k] == b@[k],
    {
        if a[i] != b[i] {
            assert(a@[i as int] != b@[i as int]);
            return false;
        }
    }
    assert(a@ =~= b@);
    true
}

/// Whether a run of characters spells the given literal.
pub fn is_lit(s: &[char], lit: &str) -> (r: bool)
    ensures
        r == (s@ == lit@),
{
    let v: Vec<char> = chars_of(lit);
    same(s, v.as_slice())
}

/// Whether two strings hold the same characters.
pub fn same_str(a: &str, b: &str) -> (r: bool)
    ensures
        r == (a@ == b@),
{
    let v: Vec<char> = chars_of(a);
    is_lit(v.as_slice(), b)
}

pub fn put_str(out: &mut Vec<char>, lit: &str)
    ensures
        final(out)@ == old(out)@ + lit@,
{
    let v: Vec<char> = chars_of(lit);
    put(out, v.as_slice());
}

pub fn put(out: &mut Vec<char>, s: &[char])
    ensures
        final(out)@ == old(out)@ + s@,
{
    let ghost start = out@;
    for i in 0..s.len()
        invariant
            out@ == start + s@.take(i as int),
    {
        out.push(s[i]);
        assert(s@.take(i + 1) =~= s@.take(i as int).push(s@[i as int]));
        assert(out@ =~= start + s@.take(i + 1));
    }
    assert(s@.take(s@.len() as int) =~= s@);
}

// ---------------------------------------------------------------- searching

/// Index of the first whitespace character, or the length.
pub open spec fn ws_index(s: Seq<char>) -> nat
    decreases s.len(),
{
    if s.len() == 0 || is_ws(s[0]) {
        0
    } else {
        1 + ws_index(s.skip(1))
    }
}

/// Index of the first character that is not whitespace, or the length.
pub open spec fn ink_index(s: Seq<char>) -> nat
    decreases s.len(),
{
    if s.len() == 0 || !is_ws(s[0]) {
        0
    } else {
        1 + ink_index(s.skip(1))
    }
}

/// Index of the first occurrence of `c`, or the length.
pub open spec fn char_index(s: Seq<char>, c: char) -> nat
    decreases s.len(),
{
    if s.len() == 0 || s[0] == c {
        0
    } else {
        1 + char_index(s.skip(1), c)
    }
}

pub proof fn lemma_ws_index(s: Seq<char>)
    ensures
        ws_index(s) <= s.len(),
        forall|i: int| 0 <= i < ws_index(s) ==> !is_ws(#[trigger] s[i]),
        ws_index(s) < s.len() ==> is_ws(s[ws_index(s) as int]),
    decreases s.len(),
{
    if s.len() > 0 && !is_ws(s[0]) {
        lemma_ws_index(s.skip(1));
        assert forall|i: int| 0 <= i < ws_index(s) implies !is_ws(#[trigger] s[i]) by {
            if i > 0 {
                assert(s[i] == s.skip(1)[i - 1]);
            }
        }
    }
}

pub proof fn lemma_ink_index(s: Seq<char>)
    ensures
        ink_index(s) <= s.len(),
        forall|i: int| 0 <= i < ink_index(s) ==> is_ws(#[trigger] s[i]),
        ink_index(s) < s.len() ==> !is_ws(s[ink_index(s) as int]),
    decreases s.len(),
{
    if s.len() > 0 && is_ws(s[0]) {
        lemma_ink_index(s.skip(1));
        assert forall|i: int| 0 <= i < ink_index(s) implies is_ws(#[trigger] s[i]) by {
            if i > 0 {
                assert(s[i] == s.skip(1)[i - 1]);
            }
        }
    }
}

pub proof fn lemma_char_index(s: Seq<char>, c: char)
    ensures
        char_index(s, c) <= s.len(),
        forall|i: int| 0 <= i < char_index(s, c) ==> #[trigger] s[i] != c,
        char_index(s, c) < s.len() ==> s[char_index(s, c) as int] == c,
    decreases s.len(),
{
    if s.len() > 0 && s[0] != c {
        lemma_char_index(s.skip(1), c);
        assert forall|i: int| 0 <= i < char_index(s, c) implies #[trigger] s[i] != c by {
            if i > 0 {
                assert(s[i] == s.skip(1)[i - 1]);
            }
        }
    }
}

/// The first whitespace sits at `k` when nothing before it is whitespace.
pub proof fn lemma_ws_index_is(s: Seq<char>, k: int)
    requires
        0 <= k <= s.len(),
        forall|i: int| 0 <= i < k ==> !is_ws(#[trigger] s[i]),
        k < s.len() ==> is_ws(s[k]),
    ensures
        ws_index(s) == k,
{
    lemma_ws_index(s);
    let j = ws_index(s) as int;
    if j < k {
        assert(is_ws(s[j]));
    }
    if k < j {
        assert(!is_ws(s[k]));
    }
}

pub proof fn lemma_ink_index_is(s: Seq<char>, k: int)
    requires
        0 <= k <= s.len(),
        forall|i: int| 0 <= i < k ==> is_ws(#[trigger] s[i]),
        k < s.len() ==> !is_ws(s[k]),
    ensures
        ink_index(s) == k,
{
    lemma_ink_index(s);
    let j = ink_index(s) as int;
    if j < k {
        assert(is_ws(s[j]));
    }
    if k < j {
        assert(is_ws(s[k]));
    }
}

pub proof fn lemma_char_index_is(s: Seq<char>, c: char, k: int)
    requires
        0 <= k <= s.len(),
        forall|i: int| 0 <= i < k ==> #[trigger] s[i] != c,
        k < s.len() ==> s[k] == c,
    ensures
        char_index(s, c) == k,
{
    lemma_char_index(s, c);
    let j = char_index(s, c) as int;
    if j < k {
        assert(s[j] != c);
    }
    if k < j {
        assert(s[k] != c);
    }
}

pub fn find_ws(s: &[char]) -> (r: usize)
    ensures
        r == ws_index(s@),
        r <= s@.len(),
{
    let mut i: usize = 0;
    while i < s.len() && !is_white(s[i])
        invariant
            i <= s.len(),
            forall|k: int| 0 <= k < i ==> !is_ws(#[trigger] s@[k]),
        decreases s.len() - i,
    {
        i += 1;
    }
    proof {
        lemma_ws_index_is(s@, i as int);
    }
    i
}

pub fn find_ink(s: &[char]) -> (r: usize)
    ensures
        r == ink_index(s@),
        r <= s@.len(),
{
    let mut i: usize = 0;
    while i < s.len() && is_white(s[i])
        invariant
            i <= s.len(),
            forall|k: int| 0 <= k < i ==> is_ws(#[trigger] s@[k]),
        decreases s.len() - i,
    {
        i += 1;
    }
    proof {
        lemma_ink_index_is(s@, i as int);
    }
    i
}

pub fn find_char(s: &[char], c: char) -> (r: usize)
    ensures
        r == char_index(s@, c),
        r <= s@.len(),
{
    let mut i: usize = 0;
    while i < s.len() && s[i] != c
        invariant
            i <= s.len(),
            forall|k: int| 0 <= k < i ==> #[trigger] s@[k] != c,
        decreases s.len() - i,
    {
        i += 1;
    }
    proof {
        lemma_char_index_is(s@, c, i as int);
    }
    i
}

// ---------------------------------------------------------------- trimming

pub open spec fn trim_start(s: Seq<char>) -> Seq<char> {
    s.skip(ink_index(s) as int)
}

pub open spec fn trim_end(s: Seq<char>) -> Seq<char>
    decreases s.len(),
{
    if s.len() > 0 && is_ws(s.last()) {
        trim_end(s.drop_last())
    } else {
        s
    }
}

pub open spec fn trim(s: Seq<char>) -> Seq<char> {
    trim_end(trim_start(s))
}

pub fn trimmed_start<'a>(s: &'a [char]) -> (r: &'a [char])
    ensures
        r@ == trim_start(s@),
{
    let k: usize = find_ink(s);
    tail(s, k)
}

/// The characters from `k` on.
pub fn tail<'a>(s: &'a [char], k: usize) -> (r: &'a [char])
    requires
        k <= s@.len(),
    ensures
        r@ == s@.skip(k as int),
{
    &s[k..s.len()]
}

/// The first `k` characters.
pub fn head<'a>(s: &'a [char], k: usize) -> (r: &'a [char])
    requires
        k <= s@.len(),
    ensures
        r@ == s@.take(k as int),
{
    &s[0..k]
}

pub fn trimmed_end<'a>(s: &'a [char]) -> (r: &'a [char])
    ensures
        r@ == trim_end(s@),
{
    let mut k: usize = s.len();
    assert(s@.take(k as int) =~= s@);
    while k > 0 && is_white(s[k - 1])
        invariant
            k <= s.len(),
            trim_end(s@) == trim_end(s@.take(k as int)),
        decreases k,
    {
        assert(s@.take(k as int).drop_last() =~= s@.take(k - 1));
        assert(s@.take(k as int).last() == s@[k - 1]);
        k -= 1;
    }
    head(s, k)
}

pub fn trimmed<'a>(s: &'a [char]) -> (r: &'a [char])
    ensures
        r@ == trim(s@),
{
    trimmed_end(trimmed_start(s))
}

/// Text that neither starts nor ends with whitespace is its own trim.
pub proof fn lemma_trim_tight(s: Seq<char>)
    requires
        s.len() > 0 ==> !is_ws(s[0]) && !is_ws(s.last()),
    ensures
        trim(s) == s,
        trim_start(s) == s,
{
    lemma_ink_index_is(s, 0);
    assert(s.skip(0) =~= s);
}

// ---------------------------------------------------------------- splitting

/// The whitespace-separated words of a text.
pub open spec fn words(s: Seq<char>) -> Seq<Seq<char>>
    decreases s.len(),
{
    if s.len() == 0 {
        Seq::empty()
    } else if is_ws(s[0]) {
        words(s.skip(1))
    } else {
        let k = ws_index(s) as int;
        proof {
            lemma_ws_index(s);
        }
        seq![s.take(k)] + words(s.skip(k))
    }
}

/// The pieces between occurrences of `c`; one more than there are occurrences.
pub open spec fn pieces(s: Seq<char>, c: char) -> Seq<Seq<char>>
    decreases s.len(),
{
    let k = char_index(s, c) as int;
    if k < s.len() {
        seq![s.take(k)] + pieces(s.skip(k + 1), c)
    } else {
        seq![s]
    }
}

/// A line without the carriage return that ended it.
pub open spec fn chop_cr(s: Seq<char>) -> Seq<char> {
    if s.len() > 0 && s.last() == '\r' {
        s.drop_last()
    } else {
        s
    }
}

/// The lines of a text, ended by a line feed or a carriage return and a line
/// feed; the last line may lack its ending.
pub open spec fn lines(s: Seq<char>) -> Seq<Seq<char>>
    decreases s.len(),
{
    if s.len() == 0 {
        Seq::empty()
    } else {
        let k = char_index(s, '\n') as int;
        if k < s.len() {
            seq![chop_cr(s.take(k))] + lines(s.skip(k + 1))
        } else {
            seq![s]
        }
    }
}

/// What a vector of slices stands for.
pub open spec fn views(v: Seq<&[char]>) -> Seq<Seq<char>> {
    v.map_values(|x: &[char]| x@)
}

/// What a vector of strings stands for.
pub open spec fn texts(v: Seq<String>) -> Seq<Seq<char>> {
    v.map_values(|x: String| x@)
}

pub proof fn lemma_views_push(v: Seq<&[char]>, x: &[char])
    ensures
        views(v.push(x)) == views(v).push(x@),
{
    assert(views(v.push(x)) =~= views(v).push(x@));
}

pub proof fn lemma_texts_push(v: Seq<String>, x: String)
    ensures
        texts(v.push(x)) == texts(v).push(x@),
{
    assert(texts(v.push(x)) =~= texts(v).push(x@));
}

pub fn split_words<'a>(s: &'a [char]) -> (r: Vec<&'a [char]>)
    ensures
        views(r@) == words(s@),
{
    let mut out: Vec<&'a [char]> = Vec::new();
    let mut rest: &'a [char] = s;
    assert(views(out@) =~= Seq::<Seq<char>>::empty());
    assert(views(out@) + words(rest@) =~= words(s@));
    while rest.len() > 0
        invariant
            views(out@) + words(rest@) == words(s@),
        decreases rest@.len(),
    {
        if is_white(rest[0]) {
            rest = tail(rest, 1);
        } else {
            let k: usize = find_ws(rest);
            let w: &'a [char] = head(rest, k);
            proof {
                lemma_ws_index(rest@);
                lemma_views_push(out@, w);
                assert(views(out@).push(w@) + words(rest@.skip(k as int)) =~= views(out@) + (
                seq![w@] + words(rest@.skip(k as int))));
            }
            out.push(w);
            rest = tail(rest, k);
        }
    }
    assert(words(rest@) =~= Seq::<Seq<char>>::empty());
    assert(views(out@) + words(rest@) =~= views(out@));
    out
}

pub fn split_on<'a>(s: &'a [char], c: char) -> (r: Vec<&'a [char]>)
    ensures
        views(r@) == pieces(s@, c),
        r@.len() >= 1,
{
    let mut out: Vec<&'a [char]> = Vec::new();
    let mut rest: &'a [char] = s;
    assert(views(out@) =~= Seq::<Seq<char>>::empty());
    assert(views(out@) + pieces(rest@, c) =~= pieces(s@, c));
    let mut k: usize = find_char(rest, c);
    while k < rest.len()
        invariant
            k == char_index(rest@, c),
            k <= rest@.len(),
            views(out@) + pieces(rest@, c) == pieces(s@, c),
        decreases rest@.len(),
    {
        let w: &'a [char] = head(rest, k);
        proof {
            lemma_views_push(out@, w);
            assert(views(out@).push(w@) + pieces(rest@.skip(k + 1), c) =~= views(out@) + (seq![w@]
                + pieces(rest@.skip(k + 1), c)));
        }
        out.push(w);
        rest = tail(rest, k + 1);
        k = find_char(rest, c);
    }
    proof {
        lemma_views_push(out@, rest);
        assert(views(out@).push(rest@) =~= views(out@) + seq![rest@]);
    }
    out.push(rest);
    out
}

pub fn split_lines<'a>(s: &'a [char]) -> (r: Vec<&'a [char]>)
    ensures
        views(r@) == lines(s@),
{
    let mut out: Vec<&'a [char]> = Vec::new();
    let mut rest: &'a [char] = s;
    assert(views(out@) =~= Seq::<Seq<char>>::empty());
    assert(views(out@) + lines(rest@) =~= lines(s@));
    while rest.len() > 0
        invariant
            views(out@) + lines(rest@) == lines(s@),
        decreases rest@.len(),
    {
        let k: usize = find_char(rest, '\n');
        if k < rest.len() {
            let raw: &'a [char] = head(rest, k);
            let w: &'a [char] = if k > 0 && raw[k - 1] == '\r' {
                head(raw, k - 1)
            } else {
                raw
            };
            proof {
                assert(w@ =~= chop_cr(raw@));
                lemma_views_push(out@, w);
                assert(views(out@).push(w@) + lines(rest@.skip(k + 1)) =~= views(out@) + (seq![
                    w@,
                ] + lines(rest@.skip(k + 1))));
            }
            out.push(w);
            rest = tail(rest, k + 1);
        } else {
            proof {
                lemma_views_push(out@, rest);
                assert(views(out@).push(rest@) =~= views(out@) + seq![rest@]);
                assert(lines(Seq::<char>::empty()) =~= Seq::<Seq<char>>::empty());
            }
            out.push(rest);
            rest = tail(rest, k);
            assert(rest@ =~= Seq::<char>::empty());
            assert(views(out@) + lines(rest@) =~= views(out@));
        }
    }
    assert(lines(rest@) =~= Seq::<Seq<char>>::empty());
    assert(views(out@) + lines(rest@) =~= views(out@));
    out
}

/// The first word and what follows it with leading whitespace dropped.
pub open spec fn first_word(s: Seq<char>) -> (Seq<char>, Seq<char>) {
    let t = trim_start(s);
    let k = ws_index(t) as int;
    (t.take(k), trim_start(t.skip(k)))
}

pub fn split_first_word<'a>(s: &'a [char]) -> (r: (&'a [char], &'a [char]))
    ensures
        (r.0@, r.1@) == first_word(s@),
{
    let t: &'a [char] = trimmed_start(s);
    let k: usize = find_ws(t);
    (head(t, k), trimmed_start(tail(t, k)))
}

/// Everything before the first `#` that begins a word.
pub open spec fn uncomment_from(s: Seq<char>, in_word: bool) -> Seq<char>
    decreases s.len(),
{
    if s.len() == 0 {
        s
    } else if s[0] == '#' && !in_word {
        Seq::empty()
    } else {
        seq![s[0]] + uncomment_from(s.skip(1), !is_ws(s[0]))
    }
}

/// A line without its comment. A `#` starts a comment only where it begins a
/// word; inside a word it is literal.
pub open spec fn uncomment(s: Seq<char>) -> Seq<char> {
    uncomment_from(s, false)
}

pub fn strip_comment<'a>(s: &'a [char]) -> (r: &'a [char])
    ensures
        r@ == uncomment(s@),
{
    let mut i: usize = 0;
    let mut in_word: bool = false;
    assert(s@.skip(0) =~= s@);
    assert(s@.take(0) + uncomment_from(s@, false) =~= uncomment(s@));
    while i < s.len()
        invariant
            i <= s.len(),
            s@.take(i as int) + uncomment_from(s@.skip(i as int), in_word) == uncomment(s@),
        decreases s.len() - i,
    {
        let c: char = s[i];
        if c == '#' && !in_word {
            assert(uncomment_from(s@.skip(i as int), in_word) =~= Seq::<char>::empty());
            assert(s@.take(i as int) + Seq::<char>::empty() =~= s@.take(i as int));
            return head(s, i);
        }
        assert(s@.skip(i as int).skip(1) =~= s@.skip(i + 1));
        assert(s@.take(i as int) + (seq![c] + uncomment_from(s@.skip(i + 1), !is_ws(c)))
            =~= s@.take(i + 1) + uncomment_from(s@.skip(i + 1), !is_ws(c)));
        in_word = !is_white(c);
        i += 1;
    }
    assert(s@.take(i as int) + uncomment_from(s@.skip(i as int), in_word) =~= s@);
    s
}

// ---------------------------------------------------------------- numbers

/// The value of a digit in bases up to sixteen.
pub open spec fn digit_value(c: char) -> nat {
    if is_digit(c) {
        (c as u32 - '0' as u32) as nat
    } else if 'a' <= c && c <= 'f' {
        (c as u32 - 'a' as u32 + 10) as nat
    } else if 'A' <= c && c <= 'F' {
        (c as u32 - 'A' as u32 + 10) as nat
    } else {
        99
    }
}

pub fn digit_of(c: char) -> (r: u32)
    ensures
        r == digit_value(c),
{
    if '0' <= c && c <= '9' {
        c as u32 - '0' as u32
    } else if 'a' <= c && c <= 'f' {
        c as u32 - 'a' as u32 + 10
    } else if 'A' <= c && c <= 'F' {
        c as u32 - 'A' as u32 + 10
    } else {
        99
    }
}

/// The value of a run of digits in the given base, if they all are digits.
pub open spec fn digits_value(s: Seq<char>, base: nat) -> Option<nat>
    decreases s.len(),
{
    if s.len() == 0 {
        Some(0)
    } else {
        match digits_value(s.drop_last(), base) {
            Some(v) => if digit_value(s.last()) < base {
                Some(v * base + digit_value(s.last()))
            } else {
                None
            },
            None => None,
        }
    }
}

/// An unsigned integer: an optional `+`, then at least one digit, at most `max`.
pub open spec fn parse_uint(s: Seq<char>, base: nat, max: nat) -> Option<nat> {
    let body = if s.len() > 0 && s[0] == '+' {
        s.skip(1)
    } else {
        s
    };
    if body.len() == 0 {
        None
    } else {
        match digits_value(body, base) {
            Some(v) => if v <= max {
                Some(v)
            } else {
                None
            },
            None => None,
        }
    }
}

/// The byte that two hexadecimal digits stand for.
pub open spec fn hex_byte(s: Seq<char>) -> Option<u8> {
    if s.len() == 2 && digit_value(s[0]) < 16 && digit_value(s[1]) < 16 {
        Some((16 * digit_value(s[0]) + digit_value(s[1])) as u8)
    } else {
        None
    }
}

pub fn read_hex_byte(s: &[char]) -> (r: Option<u8>)
    ensures
        r == hex_byte(s@),
{
    if s.len() != 2 {
        return None;
    }
    let high: u32 = digit_of(s[0]);
    let low: u32 = digit_of(s[1]);
    if high < 16 && low < 16 {
        Some((16 * high + low) as u8)
    } else {
        None
    }
}

/// A signed integer between `-low` and `max`.
pub open spec fn parse_int(s: Seq<char>, low: nat, max: nat) -> Option<int> {
    if s.len() > 0 && s[0] == '-' {
        let body = s.skip(1);
        if body.len() == 0 {
            None
        } else {
            match digits_value(body, 10) {
                Some(v) => if v <= low {
                    Some(-(v as int))
                } else {
                    None
                },
                None => None,
            }
        }
    } else {
        match parse_uint(s, 10, max) {
            Some(v) => Some(v as int),
            None => None,
        }
    }
}

pub proof fn lemma_digits_grow(s: Seq<char>, k: int, base: nat)
    requires
        0 <= k <= s.len(),
        base >= 1,
    ensures
        digits_value(s, base) is Some ==> digits_value(s.take(k), base) is Some && digits_value(
            s.take(k),
            base,
        )->0 <= digits_value(s, base)->0,
    decreases s.len() - k,
{
    if k == s.len() {
        assert(s.take(k) =~= s);
    } else {
        lemma_digits_grow(s, k + 1, base);
        let t = s.take(k + 1);
        assert(t.drop_last() =~= s.take(k));
        if digits_value(s, base) is Some {
            let v = digits_value(s.take(k), base)->0;
            assert(v * base >= v) by (nonlinear_arith)
                requires
                    base >= 1,
                    v >= 0,
            ;
        }
    }
}

/// Reads a run of digits; `None` where a digit is out of base or the value is
/// above `max`.
pub fn read_digits(s: &[char], base: u32, max: u64) -> (r: Option<u64>)
    requires
        2 <= base <= 16,
    ensures
        match r {
            Some(v) => digits_value(s@, base as nat) == Some(v as nat) && v <= max,
            None => digits_value(s@, base as nat) is None || digits_value(s@, base as nat)->0
                > max,
        },
{
    let mut v: u64 = 0;
    let mut i: usize = 0;
    assert(s@.take(0).len() == 0);
    while i < s.len()
        invariant
            2 <= base <= 16,
            i <= s.len(),
            v <= max,
            digits_value(s@.take(i as int), base as nat) == Some(v as nat),
        decreases s.len() - i,
    {
        let d: u32 = digit_of(s[i]);
        assert(s@.take(i + 1).drop_last() =~= s@.take(i as int));
        if d >= base {
            proof {
                lemma_digits_grow(s@, i + 1, base as nat);
            }
            return None;
        }
        assert(v * base <= 0xffff_ffff_ffff_ffff * 16) by (nonlinear_arith)
            requires
                v <= 0xffff_ffff_ffff_ffff,
                base <= 16,
        ;
        let w: u128 = v as u128 * base as u128 + d as u128;
        if w > max as u128 {
            proof {
                lemma_digits_grow(s@, i + 1, base as nat);
            }
            return None;
        }
        v = w as u64;
        i += 1;
    }
    assert(s@.take(i as int) =~= s@);
    Some(v)
}

pub fn read_uint(s: &[char], base: u32, max: u64) -> (r: Option<u64>)
    requires
        2 <= base <= 16,
    ensures
        match r {
            Some(v) => parse_uint(s@, base as nat, max as nat) == Some(v as nat) && v <= max,
            None => parse_uint(s@, base as nat, max as nat) is None,
        },
{
    let body: &[char] = if s.len() > 0 && s[0] == '+' {
        tail(s, 1)
    } else {
        s
    };
    if body.len() == 0 {
        return None;
    }
    read_digits(body, base, max)
}

pub fn read_int(s: &[char], low: u32, max: u32) -> (r: Option<i64>)
    ensures
        match r {
            Some(v) => parse_int(s@, low as nat, max as nat) == Some(v as int) && -low <= v <= max,
            None => parse_int(s@, low as nat, max as nat) is None,
        },
{
    if s.len() > 0 && s[0] == '-' {
        let body: &[char] = tail(s, 1);
        if body.len() == 0 {
            return None;
        }
        match read_digits(body, 10, low as u64) {
            Some(v) => Some(-(v as i64)),
            None => None,
        }
    } else {
        match read_uint(s, 10, max as u64) {
            Some(v) => Some(v as i64),
            None => None,
        }
    }
}

/// The digit for a value below sixteen, upper case.
pub open spec fn digit_char(d: nat) -> char {
    if d < 10 {
        (('0' as u32 + d) as u32) as char
    } else {
        (('A' as u32 + d - 10) as u32) as char
    }
}

/// The numeral of `n` in the given base, without leading zeros.
pub open spec fn numeral(n: nat, base: nat) -> Seq<char>
    decreases n,
{
    if n < base || base < 2 {
        seq![digit_char(n)]
    } else {
        proof {
            assert(n / base < n) by (nonlinear_arith)
                requires
                    n >= base,
                    base >= 2,
            ;
        }
        numeral(n / base, base).push(digit_char(n % base))
    }
}

pub open spec fn dec(n: nat) -> Seq<char> {
    numeral(n, 10)
}

/// Upper-case hexadecimal, at least two digits.
pub open spec fn hex2(n: nat) -> Seq<char> {
    if n < 16 {
        seq!['0', digit_char(n)]
    } else {
        numeral(n, 16)
    }
}

pub open spec fn signed_dec(n: int) -> Seq<char> {
    if n < 0 {
        seq!['-'] + dec((-n) as nat)
    } else {
        dec(n as nat)
    }
}

pub fn char_for(d: u128) -> (r: char)
    requires
        d < 16,
    ensures
        r == digit_char(d as nat),
{
    if d < 10 {
        (48u8 + d as u8) as char
    } else {
        (55u8 + d as u8) as char
    }
}

pub fn numeral_of(n: u128, base: u128) -> (r: Vec<char>)
    requires
        2 <= base <= 16,
    ensures
        r@ == numeral(n as nat, base as nat),
    decreases n,
{
    if n < base {
        let mut r: Vec<char> = Vec::new();
        r.push(char_for(n));
        assert(r@ =~= numeral(n as nat, base as nat));
        r
    } else {
        assert(n / base < n && (n as nat) / (base as nat) == n / base && (n as nat) % (base as nat)
            == n % base) by (nonlinear_arith)
            requires
                n >= base,
                base >= 2,
        ;
        assert(n % base < base) by (nonlinear_arith)
            requires
                base >= 2,
        ;
        let mut r: Vec<char> = numeral_of(n / base, base);
        r.push(char_for(n % base));
        r
    }
}

pub fn put_dec(out: &mut Vec<char>, n: u64)
    ensures
        final(out)@ == old(out)@ + dec(n as nat),
{
    let v: Vec<char> = numeral_of(n as u128, 10);
    put(out, v.as_slice());
}

pub fn put_hex2(out: &mut Vec<char>, n: u64)
    ensures
        final(out)@ == old(out)@ + hex2(n as nat),
{
    if n < 16 {
        let ghost start = out@;
        out.push('0');
        out.push(char_for(n as u128));
        assert(out@ =~= start + hex2(n as nat));
    } else {
        let v: Vec<char> = numeral_of(n as u128, 16);
        put(out, v.as_slice());
    }
}

pub fn put_int(out: &mut Vec<char>, n: i64)
    requires
        n > i64::MIN,
    ensures
        final(out)@ == old(out)@ + signed_dec(n as int),
{
    let ghost start = out@;
    if n < 0 {
        out.push('-');
        put_dec(out, (-n) as u64);
        assert(out@ =~= start + signed_dec(n as int));
    } else {
        put_dec(out, n as u64);
    }
}

pub proof fn lemma_digit_char(d: nat)
    requires
        d < 16,
    ensures
        digit_value(digit_char(d)) == d,
        is_alnum(digit_char(d)),
        !is_lower(digit_char(d)),
        d < 10 ==> is_digit(digit_char(d)),
{
}

/// Reading back a numeral gives the number it was written from.
pub proof fn lemma_numeral(n: nat, base: nat)
    requires
        2 <= base <= 16,
    ensures
        digits_value(numeral(n, base), base) == Some(n),
        numeral(n, base).len() >= 1,
        forall|i: int| 0 <= i < numeral(n, base).len() ==> is_alnum(#[trigger] numeral(n, base)[i]),
    decreases n,
{
    let s = numeral(n, base);
    if n < base {
        lemma_digit_char(n);
        assert(s.drop_last() =~= Seq::<char>::empty());
        reveal_with_fuel(digits_value, 2);
        assert(0 * base == 0) by (nonlinear_arith);
    } else {
        assert(n / base < n && n % base < base && (n / base) * base + n % base == n)
            by (nonlinear_arith)
            requires
                n >= base,
                base >= 2,
        ;
        lemma_numeral(n / base, base);
        lemma_digit_char(n % base);
        assert(s.drop_last() =~= numeral(n / base, base));
        assert forall|i: int| 0 <= i < s.len() implies is_alnum(#[trigger] s[i]) by {
            if i < s.len() - 1 {
                assert(s[i] == numeral(n / base, base)[i]);
            }
        }
    }
}

pub proof fn lemma_dec(n: nat, max: nat)
    requires
        n <= max,
    ensures
        parse_uint(dec(n), 10, max) == Some(n),
        dec(n).len() >= 1,
        forall|i: int| 0 <= i < dec(n).len() ==> is_alnum(#[trigger] dec(n)[i]),
{
    lemma_numeral(n, 10);
    assert(is_alnum(dec(n)[0]));
}

pub proof fn lemma_hex2(n: nat, max: nat)
    requires
        n <= max,
    ensures
        parse_uint(hex2(n), 16, max) == Some(n),
        hex2(n).len() >= 2,
        forall|i: int| 0 <= i < hex2(n).len() ==> is_alnum(#[trigger] hex2(n)[i]),
        n < 256 ==> hex2(n).len() == 2,
        n < 256 ==> hex_byte(hex2(n)) == Some(n as u8),
{
    lemma_numeral(n, 16);
    if n < 16 {
        lemma_digit_char(n);
        let s = hex2(n);
        assert(s.drop_last() =~= seq!['0']);
        assert(s.drop_last().drop_last() =~= Seq::<char>::empty());
        reveal_with_fuel(digits_value, 3);
    } else {
        assert(is_alnum(hex2(n)[0]));
        reveal_with_fuel(numeral, 3);
        if n < 256 {
            lemma_digit_char(n / 16);
            lemma_digit_char(n % 16);
            assert(hex2(n) =~= seq![digit_char(n / 16), digit_char(n % 16)]);
        }
    }
}

pub proof fn lemma_signed_dec(n: int, low: nat, max: nat)
    requires
        -low <= n <= max,
    ensures
        parse_int(signed_dec(n), low, max) == Some(n),
        signed_dec(n).len() >= 1,
        forall|i: int|
            0 <= i < signed_dec(n).len() ==> is_alnum(#[trigger] signed_dec(n)[i])
                || signed_dec(n)[i] == '-',
{
    let s = signed_dec(n);
    if n < 0 {
        lemma_numeral((-n) as nat, 10);
        assert(s.skip(1) =~= dec((-n) as nat));
        assert forall|i: int| 0 <= i < s.len() implies is_alnum(#[trigger] s[i]) || s[i] == '-' by {
            if i > 0 {
                assert(s[i] == dec((-n) as nat)[i - 1]);
            }
        }
    } else {
        lemma_dec(n as nat, max);
        assert(is_alnum(s[0]));
    }
}

// ---------------------------------------------------------------- bytes

/// How many bytes UTF-8 takes for a character.
pub open spec fn char_bytes(c: char) -> nat {
    let n = c as u32;
    if n < 0x80 {
        1
    } else if n < 0x800 {
        2
    } else if n < 0x10000 {
        3
    } else {
        4
    }
}

/// How many bytes UTF-8 takes for a text.
pub open spec fn byte_len(s: Seq<char>) -> nat
    decreases s.len(),
{
    if s.len() == 0 {
        0
    } else {
        byte_len(s.drop_last()) + char_bytes(s.last())
    }
}

pub proof fn lemma_byte_len(s: Seq<char>)
    ensures
        s.len() <= byte_len(s) <= 4 * s.len(),
        (forall|i: int| 0 <= i < s.len() ==> (#[trigger] s[i] as u32) < 0x80) ==> byte_len(s)
            == s.len(),
    decreases s.len(),
{
    if s.len() > 0 {
        lemma_byte_len(s.drop_last());
        assert forall|i: int|
            (forall|j: int| 0 <= j < s.len() ==> (#[trigger] s[j] as u32) < 0x80) && 0 <= i
                < s.drop_last().len() implies (#[trigger] s.drop_last()[i] as u32) < 0x80 by {
            assert(s.drop_last()[i] == s[i]);
        }
    }
}

pub proof fn lemma_byte_len_push(s: Seq<char>, c: char)
    ensures
        byte_len(s.push(c)) == byte_len(s) + char_bytes(c),
{
    assert(s.push(c).drop_last() =~= s);
}

pub fn bytes_of(c: char) -> (r: u128)
    ensures
        r == char_bytes(c),
        1 <= r <= 4,
{
    let n: u32 = c as u32;
    if n < 0x80 {
        1
    } else if n < 0x800 {
        2
    } else if n < 0x10000 {
        3
    } else {
        4
    }
}

/// How many bytes a text takes.
pub fn count_bytes(s: &[char]) -> (r: u128)
    ensures
        r == byte_len(s@),
{
    let mut total: u128 = 0;
    for i in 0..s.len()
        invariant
            total == byte_len(s@.take(i as int)),
            total <= 4 * i,
    {
        proof {
            lemma_byte_len_push(s@.take(i as int), s@[i as int]);
            assert(s@.take(i + 1) =~= s@.take(i as int).push(s@[i as int]));
        }
        total = total + bytes_of(s[i]);
    }
    assert(s@.take(s@.len() as int) =~= s@);
    total
}

/// Whether a text takes exactly `n` bytes.
pub fn has_byte_len(s: &[char], n: usize) -> (r: bool)
    requires
        n <= 64,
    ensures
        r == (byte_len(s@) == n),
{
    proof {
        lemma_byte_len(s@);
    }
    if s.len() > n {
        return false;
    }
    let mut total: usize = 0;
    let mut i: usize = 0;
    while i < s.len()
        invariant
            i <= s.len() <= 64,
            total == byte_len(s@.take(i as int)),
            total <= 4 * i,
        decreases s.len() - i,
    {
        assert(s@.take(i + 1).drop_last() =~= s@.take(i as int));
        let c: u32 = s[i] as u32;
        let k: usize = if c < 0x80 {
            1
        } else if c < 0x800 {
            2
        } else if c < 0x10000 {
            3
        } else {
            4
        };
        total += k;
        i += 1;
    }
    assert(s@.take(i as int) =~= s@);
    total == n
}

// ---------------------------------------------------------------- thousandths

/// A digit of a numeral, zero off its ends.
pub open spec fn digit_near(d: Seq<char>, i: int) -> nat {
    if 0 <= i < d.len() {
        digit_value(d[i])
    } else {
        0
    }
}

/// The number that the first `p` digits make.
pub open spec fn lead_value(d: Seq<char>, p: int) -> nat
    decreases p,
{
    if p <= 0 {
        0
    } else {
        lead_value(d, p - 1) * 10 + digit_near(d, p - 1)
    }
}

/// Digits with a point behind the first `p` as thousandths, rounded half up.
pub open spec fn thousandths(d: Seq<char>, p: int) -> nat {
    lead_value(d, p + 3) + (if digit_near(d, p + 3) >= 5 {
        1nat
    } else {
        0nat
    })
}

pub open spec fn all_digits(s: Seq<char>) -> bool {
    forall|i: int| 0 <= i < s.len() ==> is_digit(#[trigger] s[i])
}

/// Where an exponent begins.
pub open spec fn exponent_index(s: Seq<char>) -> nat {
    let a = char_index(s, 'e');
    let b = char_index(s, 'E');
    if a < b {
        a
    } else {
        b
    }
}

/// An exponent: an optional sign and at least one digit.
pub open spec fn exponent(s: Seq<char>) -> Option<int> {
    let signed = s.len() > 0 && (s[0] == '-' || s[0] == '+');
    let digits = if signed {
        s.skip(1)
    } else {
        s
    };
    if digits.len() == 0 || !all_digits(digits) {
        None
    } else {
        let n = digits_value(digits, 10)->0 as int;
        Some(
            if s[0] == '-' {
                -n
            } else {
                n
            },
        )
    }
}

/// A decimal number without its sign as thousandths: digits with at most one
/// point among them and at least one digit, then an exponent where there is
/// one.
pub open spec fn unsigned_value(body: Seq<char>) -> Option<nat> {
    let x = exponent_index(body) as int;
    let shift = if x < body.len() {
        exponent(body.skip(x + 1))
    } else {
        Some(0)
    };
    match shift {
        Some(n) => point_value(body.take(x), n),
        None => None,
    }
}

/// Digits around a point that is then shifted to the right, as thousandths.
pub open spec fn point_value(mantissa: Seq<char>, shift: int) -> Option<nat> {
    let k = char_index(mantissa, '.') as int;
    let whole = mantissa.take(k);
    let fraction = if k < mantissa.len() {
        mantissa.skip(k + 1)
    } else {
        Seq::empty()
    };
    if whole.len() + fraction.len() == 0 || !all_digits(whole) || !all_digits(fraction) {
        None
    } else {
        Some(thousandths(whole + fraction, whole.len() + shift))
    }
}

/// A number without its sign.
pub open spec fn unsigned_of(s: Seq<char>) -> Seq<char> {
    if s.len() > 0 && (s[0] == '-' || s[0] == '+') {
        s.skip(1)
    } else {
        s
    }
}

/// A decimal number, with an optional sign, as thousandths.
pub open spec fn parse_milli(s: Seq<char>) -> Option<int> {
    match unsigned_value(unsigned_of(s)) {
        Some(v) => if v > i32::MAX {
            None
        } else if s[0] == '-' {
            Some(-(v as int))
        } else {
            Some(v as int)
        },
        None => None,
    }
}

/// A probability as thousandths. One that is out of range, or infinite, is as
/// far as thousandths go; one that is no number is never met.
pub open spec fn parse_odds(s: Seq<char>) -> Option<int> {
    let body = lower(unsigned_of(s));
    let size: Option<nat> = if body == "inf"@ || body == "infinity"@ {
        Some(i32::MAX as nat)
    } else if body == "nan"@ {
        Some(0)
    } else {
        match unsigned_value(unsigned_of(s)) {
            Some(v) => Some(
                if v > i32::MAX {
                    i32::MAX as nat
                } else {
                    v
                },
            ),
            None => None,
        }
    };
    match size {
        Some(v) => Some(
            if s[0] == '-' {
                -(v as int)
            } else {
                v as int
            },
        ),
        None => None,
    }
}

pub fn only_digits(s: &[char]) -> (r: bool)
    ensures
        r == all_digits(s@),
{
    for i in 0..s.len()
        invariant
            forall|k: int| 0 <= k < i ==> is_digit(#[trigger] s@[k]),
    {
        let c: char = s[i];
        if !('0' <= c && c <= '9') {
            assert(!is_digit(s@[i as int]));
            return false;
        }
    }
    true
}

/// Exponents count up to here; a numeral that fits in memory is shifted out
/// long before.
const FAR: u128 = 1_000_000_000_000_000_000_000;

/// The number that digits make, or `FAR` where it is larger.
fn read_shift(s: &[char]) -> (r: u128)
    requires
        all_digits(s@),
    ensures
        r <= FAR,
        digits_value(s@, 10) is Some,
        digits_value(s@, 10)->0 <= FAR ==> r == digits_value(s@, 10)->0,
        digits_value(s@, 10)->0 > FAR ==> r == FAR,
{
    let mut v: u128 = 0;
    for i in 0..s.len()
        invariant
            all_digits(s@),
            v <= FAR,
            digits_value(s@.take(i as int), 10) is Some,
            digits_value(s@.take(i as int), 10)->0 <= FAR ==> v == digits_value(
                s@.take(i as int),
                10,
            )->0,
            digits_value(s@.take(i as int), 10)->0 > FAR ==> v == FAR,
    {
        assert(s@.take(i + 1).drop_last() =~= s@.take(i as int));
        assert(is_digit(s@[i as int]));
        let w: u128 = v * 10 + digit_of(s[i]) as u128;
        v = if w > FAR {
            FAR
        } else {
            w
        };
    }
    assert(s@.take(s@.len() as int) =~= s@);
    v
}

/// An exponent, no further from zero than `FAR`.
fn read_exponent(s: &[char]) -> (r: Option<i128>)
    ensures
        match r {
            Some(x) => exponent(s@) is Some && -FAR <= x <= FAR && (x == exponent(s@)->0 || (x
                == FAR && exponent(s@)->0 > FAR) || (x == -FAR && exponent(s@)->0 < -FAR)),
            None => exponent(s@) is None,
        },
{
    let signed: bool = s.len() > 0 && (s[0] == '-' || s[0] == '+');
    let digits: &[char] = if signed {
        tail(s, 1)
    } else {
        s
    };
    if digits.len() == 0 || !only_digits(digits) {
        return None;
    }
    let n: i128 = read_shift(digits) as i128;
    if s[0] == '-' {
        Some(-n)
    } else {
        Some(n)
    }
}

proof fn lemma_lead_grows(d: Seq<char>, p: int, q: int)
    requires
        p <= q,
    ensures
        lead_value(d, p) <= lead_value(d, q),
    decreases q - p,
{
    if p < q {
        lemma_lead_grows(d, p, q - 1);
    }
}

proof fn lemma_lead_stays_zero(d: Seq<char>, p: int, q: int)
    requires
        d.len() <= p <= q,
        lead_value(d, p) == 0,
    ensures
        lead_value(d, q) == 0,
    decreases q - p,
{
    if p < q {
        lemma_lead_stays_zero(d, p, q - 1);
    }
}

fn near_digit(d: &[char], i: i128) -> (r: u64)
    requires
        all_digits(d@),
    ensures
        r == digit_near(d@, i as int),
        r < 10,
{
    if 0 <= i && i < d.len() as i128 {
        assert(is_digit(d@[i as int]));
        digit_of(d[i as usize]) as u64
    } else {
        0
    }
}

/// The number that the first digits make, where it is not too large. A point
/// that lies further off than `FAR` is taken to lie there.
fn read_lead(d: &[char], p: i128, Ghost(far): Ghost<int>) -> (r: Option<u64>)
    requires
        all_digits(d@),
        -2 * FAR <= p <= 2 * FAR,
        far == p || (p >= FAR && far > p) || (p <= 0 && far < p),
    ensures
        match r {
            Some(v) => v == lead_value(d@, far) && v <= i32::MAX,
            None => lead_value(d@, far) > i32::MAX,
        },
{
    let mut v: u64 = 0;
    let mut j: i128 = 0;
    let n: i128 = d.len() as i128;
    while j < p
        invariant
            all_digits(d@),
            n == d@.len(),
            0 <= j,
            j <= p || (j == 0 && p < 0),
            -2 * FAR <= p <= 2 * FAR,
            far == p || (p >= FAR && far > p) || (p <= 0 && far < p),
            n <= usize::MAX,
            v == lead_value(d@, j as int),
            v <= i32::MAX,
            j > n && v > 0 ==> v >= j - n,
            j > n ==> v > 0,
        decreases p - j,
    {
        if j >= n && v == 0 {
            proof {
                lemma_lead_stays_zero(d@, j as int, far);
            }
            return Some(0);
        }
        v = v * 10 + near_digit(d, j);
        j += 1;
        if v > i32::MAX as u64 {
            proof {
                lemma_lead_grows(d@, j as int, far);
            }
            return None;
        }
    }
    assert(far == p || p <= 0);
    Some(v)
}

/// Digits around a point that is then shifted, as thousandths.
fn read_thousandths(whole: &[char], fraction: &[char], shift: i128, Ghost(at): Ghost<int>) -> (r:
    Option<u64>)
    requires
        all_digits(whole@),
        all_digits(fraction@),
        -FAR <= shift <= FAR,
        shift == at || (shift == FAR && at > FAR) || (shift == -FAR && at < -FAR),
    ensures
        match r {
            Some(v) => v == thousandths(whole@ + fraction@, whole@.len() + at),
            None => thousandths(whole@ + fraction@, whole@.len() + at) > i32::MAX,
        },
{
    let mut d: Vec<char> = copy_of(whole);
    put(&mut d, fraction);
    assert(d@ == whole@ + fraction@);
    assert forall|i: int| 0 <= i < d@.len() implies is_digit(#[trigger] d@[i]) by {
        if i < whole@.len() {
            assert(d@[i] == whole@[i]);
        } else {
            assert(d@[i] == fraction@[i - whole@.len()]);
        }
    }
    let w: usize = whole.len();
    let all: usize = d.len();
    let p: i128 = w as i128 + shift + 3;
    let ghost far = whole@.len() + at + 3;
    let lead: u64 = match read_lead(d.as_slice(), p, Ghost(far)) {
        Some(v) => v,
        None => {
            return None;
        },
    };
    let up: bool = near_digit(d.as_slice(), p) >= 5;
    assert(digit_near(d@, p as int) == digit_near(d@, far));
    if up {
        Some(lead + 1)
    } else {
        Some(lead)
    }
}

/// The thousandths of digits around a point, or one more than the most that
/// are held.
fn read_point(mantissa: &[char], shift: i128, Ghost(at): Ghost<int>) -> (r: Option<u32>)
    requires
        -FAR <= shift <= FAR,
        shift == at || (shift == FAR && at > FAR) || (shift == -FAR && at < -FAR),
    ensures
        match r {
            Some(v) => v <= 0x8000_0000 && match point_value(mantissa@, at) {
                Some(w) => v == (if w > i32::MAX {
                    0x8000_0000nat
                } else {
                    w
                }),
                None => false,
            },
            None => point_value(mantissa@, at) is None,
        },
{
    let k: usize = find_char(mantissa, '.');
    let whole: &[char] = head(mantissa, k);
    let fraction: &[char] = if k < mantissa.len() {
        tail(mantissa, k + 1)
    } else {
        tail(mantissa, k)
    };
    assert(k == mantissa@.len() ==> fraction@ =~= Seq::<char>::empty());
    if whole.len() == 0 && fraction.len() == 0 {
        return None;
    }
    if !only_digits(whole) || !only_digits(fraction) {
        return None;
    }
    match read_thousandths(whole, fraction, shift, Ghost(at)) {
        Some(v) => if v > 2147483647 {
            Some(0x8000_0000)
        } else {
            Some(v as u32)
        },
        None => Some(0x8000_0000),
    }
}

/// The thousandths of a number without its sign, or one more than the most
/// that are held.
fn read_unsigned(body: &[char]) -> (r: Option<u32>)
    ensures
        match r {
            Some(v) => v <= 0x8000_0000 && body@.len() > 0 && match unsigned_value(body@) {
                Some(w) => v == (if w > i32::MAX {
                    0x8000_0000nat
                } else {
                    w
                }),
                None => false,
            },
            None => unsigned_value(body@) is None,
        },
{
    let a: usize = find_char(body, 'e');
    let b: usize = find_char(body, 'E');
    let x: usize = if a < b {
        a
    } else {
        b
    };
    let mut shift: i128 = 0;
    let ghost mut at: int = 0;
    if x < body.len() {
        let rest: &[char] = tail(body, x + 1);
        match read_exponent(rest) {
            Some(e) => {
                shift = e;
                proof {
                    at = exponent(rest@)->0;
                }
            },
            None => {
                return None;
            },
        }
    }
    let v: Option<u32> = read_point(head(body, x), shift, Ghost(at));
    assert(v is Some ==> body@.len() > 0) by {
        if body@.len() == 0 {
            assert(body@.take(x as int).len() == 0);
        }
    }
    v
}

fn without_sign<'a>(s: &'a [char]) -> (r: &'a [char])
    ensures
        r@ == unsigned_of(s@),
{
    if s.len() > 0 && (s[0] == '-' || s[0] == '+') {
        tail(s, 1)
    } else {
        s
    }
}

/// Reads a decimal number as thousandths.
pub fn read_milli(s: &[char]) -> (r: Option<i32>)
    ensures
        match r {
            Some(v) => parse_milli(s@) == Some(v as int),
            None => parse_milli(s@) is None,
        },
{
    match read_unsigned(without_sign(s)) {
        Some(v) => if v > 2147483647 {
            None
        } else if s[0] == '-' {
            Some(-(v as i32))
        } else {
            Some(v as i32)
        },
        None => None,
    }
}

/// Reads a probability as thousandths.
pub fn read_odds(s: &[char]) -> (r: Option<i32>)
    ensures
        match r {
            Some(v) => parse_odds(s@) == Some(v as int),
            None => parse_odds(s@) is None,
        },
{
    let body: &[char] = without_sign(s);
    let low: Vec<char> = lower_of(body);
    let infinite: bool = is_lit(low.as_slice(), "inf") || is_lit(low.as_slice(), "infinity");
    let nothing: bool = is_lit(low.as_slice(), "nan");
    let size: u32 = if infinite {
        2147483647
    } else if nothing {
        0
    } else {
        match read_unsigned(body) {
            Some(v) => if v > 2147483647 {
                2147483647
            } else {
                v
            },
            None => {
                return None;
            },
        }
    };
    proof {
        reveal_strlit("inf");
        reveal_strlit("infinity");
        reveal_strlit("nan");
        assert(lower(body@).len() == body@.len());
        assert(s@.len() > 0);
    }
    if s[0] == '-' {
        Some(-(size as i32))
    } else {
        Some(size as i32)
    }
}

/// Thousandths written as a decimal with three places.
pub open spec fn milli_text(m: int) -> Seq<char> {
    let n = if m < 0 {
        (-m) as nat
    } else {
        m as nat
    };
    (if m < 0 {
        seq!['-']
    } else {
        Seq::empty()
    }) + dec(n / 1000) + seq![
        '.',
        digit_char(n / 100 % 10),
        digit_char(n / 10 % 10),
        digit_char(n % 10),
    ]
}

pub fn put_milli(out: &mut Vec<char>, m: i32)
    ensures
        final(out)@ == old(out)@ + milli_text(m as int),
{
    let ghost start = out@;
    let n: u64 = if m < 0 {
        (-(m as i64)) as u64
    } else {
        m as u64
    };
    if m < 0 {
        out.push('-');
    }
    put_dec(out, n / 1000);
    out.push('.');
    out.push(char_for((n / 100 % 10) as u128));
    out.push(char_for((n / 10 % 10) as u128));
    out.push(char_for((n % 10) as u128));
    assert(out@ =~= start + milli_text(m as int));
}

proof fn lemma_three_digits(n: nat)
    ensures
        n / 1000 * 1000 + (n / 100 % 10) * 100 + (n / 10 % 10) * 10 + n % 10 == n,
{
    let a = n / 10;
    let b = a / 10;
    assert(n / 100 == b);
    assert(n / 1000 == b / 10);
    assert(n == 10 * a + n % 10);
    assert(a == 10 * b + a % 10);
    assert(b == 10 * (b / 10) + b % 10);
}

proof fn lemma_lead_is_value(w: Seq<char>, f: Seq<char>, k: nat)
    requires
        all_digits(w),
        k <= w.len(),
    ensures
        digits_value(w.take(k as int), 10) == Some(lead_value(w + f, k as int)),
    decreases k,
{
    if k > 0 {
        lemma_lead_is_value(w, f, (k - 1) as nat);
        assert(w.take(k as int).drop_last() =~= w.take(k - 1));
        assert((w + f)[k - 1] == w[k - 1]);
        assert(is_digit(w[k - 1]));
    }
}

/// The unsigned part of a thousandths text: whole part, point, three digits.
#[verifier::rlimit(40)]
#[verifier::spinoff_prover]
proof fn lemma_milli_body(n: nat)
    requires
        n <= i32::MAX,
    ensures
        ({
            let w = dec(n / 1000);
            let f = seq![digit_char(n / 100 % 10), digit_char(n / 10 % 10), digit_char(n % 10)];
            let body = w + seq!['.'] + f;
            &&& w.len() >= 1
            &&& is_digit(body[0])
            &&& char_index(body, '.') == w.len()
            &&& body.take(w.len() as int) == w
            &&& body.skip((w.len() + 1) as int) == f
            &&& all_digits(w)
            &&& all_digits(f)
            &&& digits_value(w, 10) == Some(n / 1000)
            &&& thousandths(w + f, w.len() as int) == n
            &&& exponent_index(body) == body.len()
            &&& forall|i: int|
                0 <= i < body.len() ==> is_alnum(#[trigger] body[i]) || body[i] == '.'
        }),
{
    let w = dec(n / 1000);
    let f = seq![digit_char(n / 100 % 10), digit_char(n / 10 % 10), digit_char(n % 10)];
    let body = w + seq!['.'] + f;
    lemma_numeral(n / 1000, 10);
    lemma_dec_digits(n / 1000);
    lemma_digit_char(n / 100 % 10);
    lemma_digit_char(n / 10 % 10);
    lemma_digit_char(n % 10);
    assert(body[0] == w[0]);
    assert(is_digit(w[0]));
    assert forall|i: int| 0 <= i < w.len() implies #[trigger] body[i] != '.' by {
        assert(body[i] == w[i]);
        assert(is_digit(w[i]));
    }
    assert(body[w.len() as int] == '.');
    lemma_char_index_is(body, '.', w.len() as int);
    assert(body.take(w.len() as int) =~= w);
    assert(body.skip((w.len() + 1) as int) =~= f);
    assert(f[0] == digit_char(n / 100 % 10) && f[1] == digit_char(n / 10 % 10) && f[2]
        == digit_char(n % 10));
    lemma_three_digits(n);
    lemma_lead_is_value(w, f, w.len());
    assert(w.take(w.len() as int) =~= w);
    let p = w.len() as int;
    assert((w + f)[p] == f[0] && (w + f)[p + 1] == f[1] && (w + f)[p + 2] == f[2]);
    reveal_with_fuel(lead_value, 4);
    assert forall|i: int| 0 <= i < body.len() implies (#[trigger] body[i]) != 'e' && body[i]
        != 'E' by {
        if i < w.len() {
            assert(body[i] == w[i]);
            assert(is_digit(w[i]));
        } else if i > w.len() {
            assert(body[i] == f[i - w.len() - 1]);
            assert(is_digit(f[i - w.len() - 1]));
        }
    }
    lemma_char_index_is(body, 'e', body.len() as int);
    lemma_char_index_is(body, 'E', body.len() as int);
    assert forall|i: int| 0 <= i < body.len() implies is_alnum(#[trigger] body[i]) || body[i]
        == '.' by {
        if i < w.len() {
            assert(body[i] == w[i]);
            assert(is_digit(w[i]));
        } else if i > w.len() {
            assert(body[i] == f[i - w.len() - 1]);
        }
    }
}

/// Reading back thousandths gives the number they were written from.
pub proof fn lemma_milli_text(m: int)
    requires
        -(i32::MAX as int) <= m <= i32::MAX,
    ensures
        parse_milli(milli_text(m)) == Some(m),
        milli_text(m).len() >= 5,
        forall|i: int|
            0 <= i < milli_text(m).len() ==> is_alnum(#[trigger] milli_text(m)[i])
                || milli_text(m)[i] == '-' || milli_text(m)[i] == '.',
{
    let n = if m < 0 {
        (-m) as nat
    } else {
        m as nat
    };
    let s = milli_text(m);
    let w = dec(n / 1000);
    let f = seq![digit_char(n / 100 % 10), digit_char(n / 10 % 10), digit_char(n % 10)];
    let body = w + seq!['.'] + f;
    lemma_milli_body(n);
    assert(body.take(body.len() as int) =~= body);
    if m < 0 {
        assert(s.skip(1) =~= body);
        assert(s[0] == '-');
    } else {
        assert(s =~= body);
    }
    assert forall|i: int| 0 <= i < s.len() implies is_alnum(#[trigger] s[i]) || s[i] == '-' || s[i]
        == '.' by {
        if m < 0 && i > 0 {
            assert(s[i] == s.skip(1)[i - 1]);
        }
    }
}

/// A decimal numeral is made of digits.
pub proof fn lemma_dec_digits(n: nat)
    ensures
        all_digits(dec(n)),
        dec(n).len() >= 1,
    decreases n,
{
    let s = dec(n);
    if n < 10 {
        lemma_digit_char(n);
    } else {
        lemma_dec_digits(n / 10);
        lemma_digit_char(n % 10);
        assert(s == dec(n / 10).push(digit_char(n % 10)));
        assert forall|i: int| 0 <= i < s.len() implies is_digit(#[trigger] s[i]) by {
            if i < s.len() - 1 {
                assert(s[i] == dec(n / 10)[i]);
            }
        }
    }
}

// ---------------------------------------------------------------- key=value pairs

/// The `key=value` pairs of an argument list; a value in double quotes may
/// hold spaces.
pub open spec fn pairs_from(s: Seq<char>) -> Seq<(Seq<char>, Seq<char>)>
    decreases s.len(),
{
    let eq = char_index(s, '=') as int;
    if s.len() == 0 || eq >= s.len() {
        Seq::empty()
    } else {
        let r = s.skip(eq + 1);
        let (value, after) = value_of(r);
        proof {
            lemma_value_of(r);
            lemma_ink_index(after);
        }
        seq![(trim(s.take(eq)), value)] + pairs_from(trim_start(after))
    }
}

/// The value at the start of a text, and what follows it.
pub open spec fn value_of(r: Seq<char>) -> (Seq<char>, Seq<char>) {
    if r.len() > 0 && r[0] == '"' {
        let q = r.skip(1);
        let end = char_index(q, '"') as int;
        (
            q.take(end),
            if end < q.len() {
                q.skip(end + 1)
            } else {
                Seq::empty()
            },
        )
    } else {
        let end = ws_index(r) as int;
        (r.take(end), r.skip(end))
    }
}

pub proof fn lemma_value_of(r: Seq<char>)
    ensures
        value_of(r).1.len() <= r.len(),
{
    if r.len() > 0 && r[0] == '"' {
        lemma_char_index(r.skip(1), '"');
    } else {
        lemma_ws_index(r);
    }
}

pub open spec fn pairs(s: Seq<char>) -> Seq<(Seq<char>, Seq<char>)> {
    pairs_from(trim(s))
}

pub open spec fn pair_views(v: Seq<(&[char], &[char])>) -> Seq<(Seq<char>, Seq<char>)> {
    v.map_values(|p: (&[char], &[char])| (p.0@, p.1@))
}

/// Splits an argument list into `key=value` pairs.
pub fn kv<'a>(s: &'a [char]) -> (r: Vec<(&'a [char], &'a [char])>)
    ensures
        pair_views(r@) == pairs(s@),
{
    let mut out: Vec<(&'a [char], &'a [char])> = Vec::new();
    let mut rest: &'a [char] = trimmed(s);
    assert(pair_views(out@) =~= Seq::<(Seq<char>, Seq<char>)>::empty());
    assert(pair_views(out@) + pairs_from(rest@) =~= pairs(s@));
    while rest.len() > 0
        invariant
            pair_views(out@) + pairs_from(rest@) == pairs(s@),
        decreases rest@.len(),
    {
        let eq: usize = find_char(rest, '=');
        if eq == rest.len() {
            assert(pair_views(out@) + pairs_from(rest@) =~= pair_views(out@));
            return out;
        }
        let key: &'a [char] = trimmed(head(rest, eq));
        let r: &'a [char] = tail(rest, eq + 1);
        let value: &'a [char];
        let after: &'a [char];
        if r.len() > 0 && r[0] == '"' {
            let q: &'a [char] = tail(r, 1);
            let end: usize = find_char(q, '"');
            value = head(q, end);
            if end < q.len() {
                after = tail(q, end + 1);
            } else {
                after = tail(q, end);
                assert(after@ =~= Seq::<char>::empty());
            }
        } else {
            let end: usize = find_ws(r);
            value = head(r, end);
            after = tail(r, end);
        }
        proof {
            assert((value@, after@) == value_of(r@));
            lemma_value_of(r@);
            lemma_ink_index(after@);
            assert(pair_views(out@.push((key, value))) =~= pair_views(out@).push((key@, value@)));
            assert(pair_views(out@).push((key@, value@)) + pairs_from(trim_start(after@))
                =~= pair_views(out@) + (seq![(key@, value@)] + pairs_from(trim_start(after@))));
        }
        out.push((key, value));
        rest = trimmed_start(after);
    }
    assert(pair_views(out@) + pairs_from(rest@) =~= pair_views(out@));
    out
}

/// A word cut at its first `=`, if it has one.
pub open spec fn cut_word(w: Seq<char>) -> Option<(Seq<char>, Seq<char>)> {
    let k = char_index(w, '=') as int;
    if k < w.len() {
        Some((w.take(k), w.skip(k + 1)))
    } else {
        None
    }
}

pub fn split_at_eq<'a>(w: &'a [char]) -> (r: Option<(&'a [char], &'a [char])>)
    ensures
        match r {
            Some((k, v)) => cut_word(w@) == Some((k@, v@)),
            None => cut_word(w@) is None,
        },
{
    let k: usize = find_char(w, '=');
    if k < w.len() {
        Some((head(w, k), tail(w, k + 1)))
    } else {
        None
    }
}


// ---------------------------------------------------------------- paths

/// Where the last component of a path ends: trailing separators and `.`
/// components are not part of it.
pub open spec fn path_end(p: Seq<char>) -> nat
    decreases p.len(),
{
    if p.len() == 0 {
        0
    } else if p.last() == '/' {
        path_end(p.drop_last())
    } else if p.len() >= 2 && p.last() == '.' && p[p.len() - 2] == '/' {
        path_end(p.drop_last())
    } else {
        p.len()
    }
}

/// The text after the last `/`.
pub open spec fn last_component(p: Seq<char>) -> Seq<char>
    decreases p.len(),
{
    if p.len() == 0 || p.last() == '/' {
        Seq::empty()
    } else {
        last_component(p.drop_last()).push(p.last())
    }
}

/// Index of the last `.` after the first character, or the length.
pub open spec fn stem_len(name: Seq<char>) -> nat {
    stem_from(name, name.len())
}

pub open spec fn stem_from(name: Seq<char>, k: nat) -> nat
    decreases k,
{
    if k <= 1 {
        name.len()
    } else if name[k - 1] == '.' {
        (k - 1) as nat
    } else {
        stem_from(name, (k - 1) as nat)
    }
}

/// A path with its file's extension replaced; a path without a file name
/// stays as it is. Components are separated by `/`.
pub open spec fn with_extension(p: Seq<char>, ext: Seq<char>) -> Seq<char> {
    let t = p.take(path_end(p) as int);
    let name = last_component(t);
    if name.len() == 0 || name == "."@ || name == ".."@ {
        p
    } else {
        t.take(t.len() - name.len() + stem_len(name)) + seq!['.'] + ext
    }
}

pub proof fn lemma_path(p: Seq<char>)
    ensures
        path_end(p) <= p.len(),
        last_component(p).len() <= p.len(),
        last_component(p) == p.skip(p.len() - last_component(p).len()),
        last_component(p).len() < p.len() ==> p[p.len() - last_component(p).len() - 1] == '/',
        forall|i: int|
            p.len() - last_component(p).len() <= i < p.len() ==> #[trigger] p[i] != '/',
    decreases p.len(),
{
    if p.len() > 0 {
        lemma_path(p.drop_last());
        if p.last() != '/' {
            let inner = last_component(p.drop_last());
            assert(last_component(p) =~= p.skip(p.len() - inner.len() - 1));
            assert forall|i: int|
                p.len() - last_component(p).len() <= i < p.len() implies #[trigger] p[i]
                != '/' by {
                if i < p.len() - 1 {
                    assert(p.drop_last()[i] == p[i]);
                }
            }
        } else {
            assert(last_component(p) =~= p.skip(p.len() as int));
        }
    } else {
        assert(last_component(p) =~= p.skip(0));
    }
}

/// The path up to the end of its last component.
fn without_tail<'a>(p: &'a [char]) -> (t: &'a [char])
    ensures
        t@ == p@.take(path_end(p@) as int),
        path_end(p@) <= p@.len(),
{
    let mut end: usize = p.len();
    assert(p@.take(end as int) =~= p@);
    while end > 0 && (p[end - 1] == '/' || (end >= 2 && p[end - 1] == '.' && p[end - 2] == '/'))
        invariant
            end <= p.len(),
            path_end(p@) == path_end(p@.take(end as int)),
        decreases end,
    {
        assert(p@.take(end as int).drop_last() =~= p@.take(end - 1));
        end -= 1;
    }
    assert(path_end(p@.take(end as int)) == end);
    head(p, end)
}

/// The last component of a path; empty for a path without one.
pub fn file_part<'a>(p: &'a [char]) -> (r: &'a [char])
    ensures
        r@ == last_component(p@.take(path_end(p@) as int)),
{
    let t: &'a [char] = without_tail(p);
    let end: usize = t.len();
    let mut start: usize = end;
    proof {
        lemma_path(t@);
    }
    while start > 0 && t[start - 1] != '/'
        invariant
            start <= end,
            end == t@.len(),
            t@.len() - last_component(t@).len() <= start,
            last_component(t@).len() < t@.len() ==> t@[t@.len() - last_component(t@).len() - 1]
                == '/',
            forall|i: int|
                t@.len() - last_component(t@).len() <= i < t@.len() ==> #[trigger] t@[i] != '/',
            last_component(t@).len() <= t@.len(),
        decreases start,
    {
        start -= 1;
    }
    proof {
        let at = t@.len() - last_component(t@).len();
        if at < start {
            assert(t@[start - 1] != '/');
        }
    }
    tail(t, start)
}

/// A path with its file's extension replaced.
pub fn extended(p: &[char], ext: &str) -> (r: Vec<char>)
    ensures
        r@ == with_extension(p@, ext@),
{
    let t: &[char] = without_tail(p);
    let name: &[char] = file_part(p);
    proof {
        lemma_path(t@);
    }
    if name.len() == 0 || is_lit(name, ".") || is_lit(name, "..") {
        return copy_of(p);
    }
    let mut k: usize = name.len();
    while k > 1 && name[k - 1] != '.'
        invariant
            k <= name@.len(),
            stem_len(name@) == stem_from(name@, k as nat),
        decreases k,
    {
        k -= 1;
    }
    let stem: usize = if k > 1 {
        k - 1
    } else {
        name.len()
    };
    let mut out: Vec<char> = copy_of(head(t, t.len() - name.len() + stem));
    out.push('.');
    put_str(&mut out, ext);
    out
}

// ---------------------------------------------------------------- quotients

/// `a / b` to the nearest whole number, halves to even.
pub open spec fn rounded(a: int, b: int) -> int {
    let q = a / b;
    let rem = a % b;
    if 2 * rem > b || (2 * rem == b && q % 2 == 1) {
        q + 1
    } else {
        q
    }
}

/// No whole number is nearer to a quotient than the rounded one, and of two
/// that are as near it is the even one.
pub proof fn law_rounded_is_nearest(a: int, b: int)
    requires
        b > 0,
    ensures
        2 * (rounded(a, b) * b - a) <= b,
        2 * (a - rounded(a, b) * b) <= b,
        2 * (rounded(a, b) * b - a) == b || 2 * (a - rounded(a, b) * b) == b ==> rounded(a, b) % 2
            == 0,
{
    let q = a / b;
    vstd::arithmetic::div_mod::lemma_fundamental_div_mod(a, b);
    assert(q * b == b * q && (q + 1) * b == b * q + b) by (nonlinear_arith);
}

pub fn round(a: u128, b: u128) -> (r: u128)
    requires
        0 < b < 0x1000_0000_0000_0000_0000_0000_0000_0000,
        a < 0x1000_0000_0000_0000_0000_0000_0000_0000,
    ensures
        r == rounded(a as int, b as int),
        r <= a + 1,
{
    let q: u128 = a / b;
    let rem: u128 = a % b;
    assert(q <= a) by (nonlinear_arith)
        requires
            q == a / b,
            b > 0,
    ;
    if 2 * rem > b || (2 * rem == b && q % 2 == 1) {
        q + 1
    } else {
        q
    }
}

/// `a / b` with two decimals.
pub open spec fn hundredths(a: int, b: int) -> Seq<char> {
    let t = rounded(100 * a, b);
    numeral((t / 100) as nat, 10) + "."@ + dec((t / 10 % 10) as nat) + dec(
        (t % 10) as nat,
    )
}

pub fn put_hundredths(out: &mut Vec<char>, a: u128, b: u128)
    requires
        0 < b < 0x1000_0000_0000_0000_0000_0000_0000_0000,
        a < 0x10_0000_0000_0000_0000_0000_0000_0000,
    ensures
        final(out)@ == old(out)@ + hundredths(a as int, b as int),
{
    let ghost before = out@;
    let t: u128 = round(100 * a, b);
    let whole: Vec<char> = numeral_of(t / 100, 10);
    put(out, whole.as_slice());
    put_str(out, ".");
    put_dec(out, (t / 10 % 10) as u64);
    put_dec(out, (t % 10) as u64);
    assert(out@ =~= before + hundredths(a as int, b as int));
}

} // verus!
