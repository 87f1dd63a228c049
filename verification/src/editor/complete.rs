//! Completing the path of a command that takes a file.

use vstd::prelude::*;

use crate::editor;
use crate::editor::keys;
use crate::editor::status::Status;
use crate::editor::{Editor, EditorView, Request};
use crate::text;

verus! {

// ---------------------------------------------------------------- the fragment

/// Where the word at the end of a line begins.
pub open spec fn word_start(s: Seq<char>) -> nat
    decreases s.len(),
{
    if s.len() == 0 {
        0
    } else if text::is_ws(s.last()) {
        s.len()
    } else {
        word_start(s.drop_last())
    }
}

/// Where the last part of a path begins.
pub open spec fn name_start(s: Seq<char>) -> nat
    decreases s.len(),
{
    if s.len() == 0 {
        0
    } else if s.last() == '/' {
        s.len()
    } else {
        name_start(s.drop_last())
    }
}

proof fn lemma_word_start(s: Seq<char>)
    ensures
        word_start(s) <= s.len(),
    decreases s.len(),
{
    if s.len() > 0 {
        lemma_word_start(s.drop_last());
    }
}

proof fn lemma_name_start(s: Seq<char>)
    ensures
        name_start(s) <= s.len(),
    decreases s.len(),
{
    if s.len() > 0 {
        lemma_name_start(s.drop_last());
    }
}

fn find_word_start(s: &[char]) -> (r: usize)
    ensures
        r == word_start(s@),
        r <= s@.len(),
{
    let mut i: usize = s.len();
    assert(s@.take(i as int) =~= s@);
    while i > 0
        invariant
            i <= s@.len(),
            word_start(s@.take(i as int)) == word_start(s@),
        decreases i,
    {
        assert(s@.take(i as int).drop_last() =~= s@.take(i - 1));
        if text::is_white(s[i - 1]) {
            return i;
        }
        i = i - 1;
    }
    0
}

fn find_name_start(s: &[char]) -> (r: usize)
    ensures
        r == name_start(s@),
        r <= s@.len(),
{
    let mut i: usize = s.len();
    assert(s@.take(i as int) =~= s@);
    while i > 0
        invariant
            i <= s@.len(),
            name_start(s@.take(i as int)) == name_start(s@),
        decreases i,
    {
        assert(s@.take(i as int).drop_last() =~= s@.take(i - 1));
        if s[i - 1] == '/' {
            return i;
        }
        i = i - 1;
    }
    0
}

/// The line before the path, and the path.
pub open spec fn cut_line(s: Seq<char>) -> (Seq<char>, Seq<char>) {
    (s.take(word_start(s) as int), s.skip(word_start(s) as int))
}

/// The directory of a path, with its slash, and the start of the name in it.
pub open spec fn cut_path(s: Seq<char>) -> (Seq<char>, Seq<char>) {
    (s.take(name_start(s) as int), s.skip(name_start(s) as int))
}

pub open spec fn takes_file(cmd: Seq<char>) -> bool {
    cmd == "w"@ || cmd == "e"@ || cmd == "wq"@ || cmd == "edit"@ || cmd == "write"@
}

/// Only songs can be opened.
pub open spec fn wants_song(cmd: Seq<char>) -> bool {
    cmd == "e"@ || cmd == "edit"@
}

/// The directory to list.
pub open spec fn directory(path: Seq<char>) -> Seq<char> {
    let d = cut_path(path).0;
    if d.len() == 0 {
        "."@
    } else {
        d
    }
}

/// The tab key: a directory is asked for where the command takes a file.
pub open spec fn tabbed(e: EditorView) -> EditorView {
    let (head, path) = cut_line(e.command);
    if takes_file(text::trim(head)) {
        keys::requested(e, Request::List, directory(path))
    } else {
        e
    }
}

fn is_file_command(cmd: &[char]) -> (r: bool)
    ensures
        r == takes_file(cmd@),
{
    text::is_lit(cmd, "w") || text::is_lit(cmd, "e") || text::is_lit(cmd, "wq") || text::is_lit(
        cmd,
        "edit",
    ) || text::is_lit(cmd, "write")
}

// ---------------------------------------------------------------- the entries

/// Whether a text begins with another.
pub open spec fn begins(s: Seq<char>, p: Seq<char>) -> bool {
    p.len() <= s.len() && s.take(p.len() as int) == p
}

pub open spec fn ends(s: Seq<char>, p: Seq<char>) -> bool {
    p.len() <= s.len() && s.skip(s.len() - p.len()) == p
}

/// An entry that the name can be completed to. Hidden ones are offered only
/// where a dot was typed.
pub open spec fn fits(x: (Seq<char>, bool), name: Seq<char>, song_only: bool) -> bool {
    &&& begins(x.0, name)
    &&& begins(x.0, "."@) ==> begins(name, "."@)
    &&& song_only ==> x.1 || ends(x.0, ".vip"@)
}

/// The order of characters, first to last.
pub open spec fn earlier(a: Seq<char>, b: Seq<char>) -> bool
    decreases a.len(),
{
    if b.len() == 0 {
        false
    } else if a.len() == 0 {
        true
    } else if a[0] != b[0] {
        a[0] < b[0]
    } else {
        earlier(a.skip(1), b.skip(1))
    }
}

/// An entry put in its place among others in order.
pub open spec fn placed(s: Seq<(Seq<char>, bool)>, x: (Seq<char>, bool)) -> Seq<(Seq<char>, bool)>
    decreases s.len(),
{
    if s.len() > 0 && earlier(x.0, s.last().0) {
        placed(s.drop_last(), x).push(s.last())
    } else {
        s.push(x)
    }
}

/// The entries among the first `k` that fit, in order.
pub open spec fn matching(
    v: Seq<(Seq<char>, bool)>,
    name: Seq<char>,
    song_only: bool,
    k: nat,
) -> Seq<(Seq<char>, bool)>
    decreases k,
{
    if k == 0 {
        Seq::empty()
    } else {
        let m = matching(v, name, song_only, (k - 1) as nat);
        if fits(v[k - 1], name, song_only) {
            placed(m, v[k - 1])
        } else {
            m
        }
    }
}

pub open spec fn entry_views(v: Seq<(Vec<char>, bool)>) -> Seq<(Seq<char>, bool)> {
    v.map_values(|x: (Vec<char>, bool)| (x.0@, x.1))
}

pub open spec fn listing(v: Seq<(String, bool)>) -> Seq<(Seq<char>, bool)> {
    v.map_values(|x: (String, bool)| (x.0@, x.1))
}

fn starts_with(s: &[char], p: &[char]) -> (r: bool)
    ensures
        r == begins(s@, p@),
{
    if p.len() > s.len() {
        return false;
    }
    text::same(text::head(s, p.len()), p)
}

fn ends_with(s: &[char], p: &[char]) -> (r: bool)
    ensures
        r == ends(s@, p@),
{
    if p.len() > s.len() {
        return false;
    }
    text::same(text::tail(s, s.len() - p.len()), p)
}

fn entry_fits(x: &[char], is_dir: bool, name: &[char], song_only: bool) -> (r: bool)
    ensures
        r == fits((x@, is_dir), name@, song_only),
{
    let dot: Vec<char> = text::chars_of(".");
    let vip: Vec<char> = text::chars_of(".vip");
    starts_with(x, name) && (!starts_with(x, dot.as_slice()) || starts_with(name, dot.as_slice()))
        && (!song_only || is_dir || ends_with(x, vip.as_slice()))
}

fn is_earlier(a: &[char], b: &[char]) -> (r: bool)
    ensures
        r == earlier(a@, b@),
{
    let mut i: usize = 0;
    assert(a@.skip(0) =~= a@);
    assert(b@.skip(0) =~= b@);
    while i < a.len() && i < b.len()
        invariant
            i <= a@.len(),
            i <= b@.len(),
            earlier(a@.skip(i as int), b@.skip(i as int)) == earlier(a@, b@),
        decreases a@.len() - i,
    {
        assert(a@.skip(i as int).skip(1) =~= a@.skip(i + 1));
        assert(b@.skip(i as int).skip(1) =~= b@.skip(i + 1));
        if a[i] != b[i] {
            return a[i] < b[i];
        }
        i = i + 1;
    }
    i < b.len()
}

fn place(v: &mut Vec<(Vec<char>, bool)>, name: Vec<char>, is_dir: bool)
    ensures
        entry_views(final(v)@) == placed(entry_views(old(v)@), (name@, is_dir)),
{
    let ghost s = entry_views(v@);
    let ghost x = (name@, is_dir);
    let mut p: usize = v.len();
    assert(s.take(p as int) =~= s);
    assert(s.skip(p as int) =~= Seq::<(Seq<char>, bool)>::empty());
    assert(placed(s, x) =~= placed(s.take(p as int), x) + s.skip(p as int));
    while p > 0 && is_earlier(name.as_slice(), v[p - 1].0.as_slice())
        invariant
            v@ == old(v)@,
            s == entry_views(v@),
            s.len() == v@.len(),
            x == (name@, is_dir),
            p <= v@.len(),
            placed(s, x) == placed(s.take(p as int), x) + s.skip(p as int),
        decreases p,
    {
        let ghost t = s.take(p as int);
        assert(t.last() == s[p - 1]);
        assert(s[p - 1] == (v@[p - 1].0@, v@[p - 1].1));
        assert(t.drop_last() =~= s.take(p - 1));
        assert(placed(s.take(p - 1), x).push(s[p - 1]) + s.skip(p as int) =~= placed(
            s.take(p - 1),
            x,
        ) + s.skip(p - 1));
        p = p - 1;
    }
    proof {
        if p > 0 {
            assert(s.take(p as int).last() == s[p - 1]);
            assert(s[p - 1] == (v@[p - 1].0@, v@[p - 1].1));
        }
        assert(placed(s.take(p as int), x) == s.take(p as int).push(x));
    }
    v.insert(p, (name, is_dir));
    assert(entry_views(v@) =~= s.take(p as int).push(x) + s.skip(p as int));
}

fn find_matching(v: &Vec<(String, bool)>, name: &[char], song_only: bool) -> (r: Vec<
    (Vec<char>, bool),
>)
    ensures
        entry_views(r@) == matching(listing(v@), name@, song_only, v@.len()),
{
    let ghost all = listing(v@);
    let mut r: Vec<(Vec<char>, bool)> = Vec::new();
    assert(entry_views(r@) =~= Seq::<(Seq<char>, bool)>::empty());
    for i in 0..v.len()
        invariant
            all == listing(v@),
            entry_views(r@) == matching(all, name@, song_only, i as nat),
    {
        let x: Vec<char> = text::chars_of(v[i].0.as_str());
        let is_dir: bool = v[i].1;
        assert(all[i as int] == (x@, is_dir));
        if entry_fits(x.as_slice(), is_dir, name, song_only) {
            place(&mut r, x, is_dir);
        }
    }
    r
}

// ---------------------------------------------------------------- what they share

/// How many characters two texts begin with alike.
pub open spec fn alike(a: Seq<char>, b: Seq<char>) -> nat
    decreases a.len(),
{
    if a.len() == 0 || b.len() == 0 || a[0] != b[0] {
        0
    } else {
        1 + alike(a.skip(1), b.skip(1))
    }
}

/// What the names of the first `k` entries begin with alike.
pub open spec fn shared(m: Seq<(Seq<char>, bool)>, k: nat) -> Seq<char>
    decreases k,
{
    if k == 0 {
        Seq::empty()
    } else if k == 1 {
        m[0].0
    } else {
        let p = shared(m, (k - 1) as nat);
        p.take(alike(p, m[k - 1].0) as int)
    }
}

proof fn lemma_alike(a: Seq<char>, b: Seq<char>)
    ensures
        alike(a, b) <= a.len(),
        alike(a, b) <= b.len(),
    decreases a.len(),
{
    if a.len() > 0 && b.len() > 0 && a[0] == b[0] {
        lemma_alike(a.skip(1), b.skip(1));
    }
}

fn count_alike(a: &[char], b: &[char]) -> (r: usize)
    ensures
        r == alike(a@, b@),
        r <= a@.len(),
{
    let mut i: usize = 0;
    assert(a@.skip(0) =~= a@);
    assert(b@.skip(0) =~= b@);
    while i < a.len() && i < b.len()
        invariant
            i <= a@.len(),
            i <= b@.len(),
            i + alike(a@.skip(i as int), b@.skip(i as int)) == alike(a@, b@),
        decreases a@.len() - i,
    {
        assert(a@.skip(i as int).skip(1) =~= a@.skip(i + 1));
        assert(b@.skip(i as int).skip(1) =~= b@.skip(i + 1));
        if a[i] != b[i] {
            return i;
        }
        i = i + 1;
    }
    i
}

/// The longest text that all entries begin with; of no entries, none.
pub fn longest_common_prefix(v: &Vec<(Vec<char>, bool)>) -> (r: Vec<char>)
    ensures
        r@ == shared(entry_views(v@), v@.len()),
{
    let ghost m = entry_views(v@);
    if v.len() == 0 {
        let r: Vec<char> = Vec::new();
        assert(r@ =~= shared(m, 0));
        return r;
    }
    assert(m[0].0 == v@[0].0@);
    let mut r: Vec<char> = text::copy_of(v[0].0.as_slice());
    for i in 1..v.len()
        invariant
            m == entry_views(v@),
            r@ == shared(m, i as nat),
    {
        assert(m[i as int].0 == v@[i as int].0@);
        let k: usize = count_alike(r.as_slice(), v[i].0.as_slice());
        let p: Vec<char> = text::copy_of(text::head(r.as_slice(), k));
        r = p;
    }
    r
}

/// An entry as it is shown: a directory with a slash.
pub open spec fn shown(x: (Seq<char>, bool)) -> Seq<char> {
    if x.1 {
        x.0 + "/"@
    } else {
        x.0
    }
}

/// The first `k` entries as they are shown, with blanks between.
pub open spec fn preview(m: Seq<(Seq<char>, bool)>, k: nat) -> Seq<char>
    decreases k,
{
    if k == 0 {
        Seq::empty()
    } else if k == 1 {
        shown(m[0])
    } else {
        preview(m, (k - 1) as nat) + " "@ + shown(m[k - 1])
    }
}

/// What the status says of several matches: six of them at most.
pub open spec fn summary(m: Seq<(Seq<char>, bool)>) -> Seq<char> {
    if m.len() > 6 {
        preview(m, 6) + " ..."@
    } else {
        preview(m, m.len())
    }
}

/// What the name is completed to.
pub open spec fn completion(m: Seq<(Seq<char>, bool)>) -> Seq<char> {
    if m.len() == 1 {
        shown(m[0])
    } else {
        shared(m, m.len())
    }
}

fn put_shown(out: &mut Vec<char>, name: &[char], is_dir: bool)
    ensures
        final(out)@ == old(out)@ + shown((name@, is_dir)),
{
    let ghost before = out@;
    text::put(out, name);
    if is_dir {
        text::put_str(out, "/");
    }
    assert(out@ =~= before + shown((name@, is_dir)));
}

fn summarize(v: &Vec<(Vec<char>, bool)>) -> (r: Vec<char>)
    ensures
        r@ == summary(entry_views(v@)),
{
    let ghost m = entry_views(v@);
    let n: usize = if v.len() > 6 {
        6
    } else {
        v.len()
    };
    let mut r: Vec<char> = Vec::new();
    for i in 0..n
        invariant
            m == entry_views(v@),
            m.len() == v@.len(),
            n <= v@.len(),
            r@ == preview(m, i as nat),
    {
        if i > 0 {
            text::put_str(&mut r, " ");
        }
        assert(m[i as int] == (v@[i as int].0@, v@[i as int].1));
        put_shown(&mut r, v[i].0.as_slice(), v[i].1);
        assert(r@ =~= preview(m, (i + 1) as nat));
    }
    if v.len() > 6 {
        text::put_str(&mut r, " ...");
    }
    r
}

fn complete(v: &Vec<(Vec<char>, bool)>) -> (r: Vec<char>)
    requires
        v@.len() > 0,
    ensures
        r@ == completion(entry_views(v@)),
{
    let ghost m = entry_views(v@);
    if v.len() == 1 {
        assert(m[0] == (v@[0].0@, v@[0].1));
        let mut r: Vec<char> = Vec::new();
        put_shown(&mut r, v[0].0.as_slice(), v[0].1);
        assert(r@ =~= shown(m[0]));
        return r;
    }
    longest_common_prefix(v)
}

// ---------------------------------------------------------------- the answer

/// The entries of the listed directory that the line can be completed to.
pub open spec fn candidates(line: Seq<char>, v: Seq<(Seq<char>, bool)>) -> Seq<(Seq<char>, bool)> {
    let (head, path) = cut_line(line);
    matching(v, cut_path(path).1, wants_song(text::trim(head)), v.len())
}

/// After the directory was listed.
pub open spec fn listed(e: EditorView, v: Seq<(Seq<char>, bool)>) -> EditorView {
    let a = EditorView { request: Request::Nothing, ..e };
    let (head, path) = cut_line(e.command);
    let m = candidates(e.command, v);
    if m.len() == 0 {
        editor::said_of(a, Status::NoMatches, path)
    } else {
        let c = EditorView { command: head + cut_path(path).0 + completion(m), ..a };
        if m.len() > 1 {
            editor::said_of(c, Status::Matches { n: m.len() as usize }, summary(m))
        } else {
            editor::said(c, Status::Blank)
        }
    }
}

/// After the directory could not be listed.
pub open spec fn not_listed(e: EditorView, dir: Seq<char>) -> EditorView {
    editor::said_of(EditorView { request: Request::Nothing, ..e }, Status::NoDirectory, dir)
}

proof fn lemma_alike_begins(a: Seq<char>, b: Seq<char>, p: Seq<char>)
    requires
        begins(a, p),
        begins(b, p),
    ensures
        alike(a, b) >= p.len(),
    decreases p.len(),
{
    if p.len() > 0 {
        assert(a[0] == a.take(p.len() as int)[0]);
        assert(b[0] == b.take(p.len() as int)[0]);
        let q = p.skip(1);
        assert(a.skip(1).take(q.len() as int) =~= a.take(p.len() as int).skip(1));
        assert(b.skip(1).take(q.len() as int) =~= b.take(p.len() as int).skip(1));
        lemma_alike_begins(a.skip(1), b.skip(1), q);
    }
}

proof fn lemma_placed(s: Seq<(Seq<char>, bool)>, x: (Seq<char>, bool), p: Seq<char>)
    requires
        begins(x.0, p),
        forall|i: int| 0 <= i < s.len() ==> begins((#[trigger] s[i]).0, p),
    ensures
        placed(s, x).len() == s.len() + 1,
        forall|i: int| 0 <= i < placed(s, x).len() ==> begins((#[trigger] placed(s, x)[i]).0, p),
    decreases s.len(),
{
    if s.len() > 0 && earlier(x.0, s.last().0) {
        lemma_placed(s.drop_last(), x, p);
    }
}

proof fn lemma_matching(v: Seq<(Seq<char>, bool)>, name: Seq<char>, song_only: bool, k: nat)
    requires
        k <= v.len(),
    ensures
        forall|i: int|
            0 <= i < matching(v, name, song_only, k).len() ==> begins(
                (#[trigger] matching(v, name, song_only, k)[i]).0,
                name,
            ),
    decreases k,
{
    if k > 0 {
        lemma_matching(v, name, song_only, (k - 1) as nat);
        if fits(v[k - 1], name, song_only) {
            lemma_placed(matching(v, name, song_only, (k - 1) as nat), v[k - 1], name);
        }
    }
}

proof fn lemma_shared(m: Seq<(Seq<char>, bool)>, k: nat, p: Seq<char>)
    requires
        1 <= k <= m.len(),
        forall|i: int| 0 <= i < m.len() ==> begins((#[trigger] m[i]).0, p),
    ensures
        begins(shared(m, k), p),
    decreases k,
{
    if k > 1 {
        lemma_shared(m, (k - 1) as nat, p);
        let q = shared(m, (k - 1) as nat);
        assert(begins(m[k - 1].0, p));
        lemma_alike_begins(q, m[k - 1].0, p);
        lemma_alike(q, m[k - 1].0);
        assert(shared(m, k).take(p.len() as int) =~= q.take(p.len() as int));
    } else {
        assert(begins(m[0].0, p));
    }
}

/// What names begin with alike, all of them begin with; and it is the longest
/// such beginning. No names share nothing.
pub proof fn law_shared_is_longest(m: Seq<(Seq<char>, bool)>)
    ensures
        m.len() == 0 ==> shared(m, m.len()).len() == 0,
        forall|i: int| 0 <= i < m.len() ==> begins((#[trigger] m[i]).0, shared(m, m.len())),
        forall|p: Seq<char>|
            m.len() > 0 && (forall|i: int| 0 <= i < m.len() ==> begins((#[trigger] m[i]).0, p))
                ==> #[trigger] begins(shared(m, m.len()), p),
{
    lemma_shared_begins(m, m.len());
    assert forall|p: Seq<char>|
        m.len() > 0 && (forall|i: int|
            0 <= i < m.len() ==> begins((#[trigger] m[i]).0, p)) implies #[trigger] begins(
        shared(m, m.len()),
        p,
    ) by {
        lemma_shared(m, m.len(), p);
    }
}

proof fn lemma_shared_begins(m: Seq<(Seq<char>, bool)>, k: nat)
    requires
        k <= m.len(),
    ensures
        forall|i: int| 0 <= i < k ==> begins((#[trigger] m[i]).0, shared(m, k)),
    decreases k,
{
    if k == 1 {
        assert(m[0].0.take(m[0].0.len() as int) =~= m[0].0);
    } else if k > 1 {
        let q = shared(m, (k - 1) as nat);
        let n = alike(q, m[k - 1].0);
        lemma_shared_begins(m, (k - 1) as nat);
        lemma_alike(q, m[k - 1].0);
        lemma_alike_takes(q, m[k - 1].0);
        assert forall|i: int| 0 <= i < k implies begins((#[trigger] m[i]).0, shared(m, k)) by {
            if i < k - 1 {
                assert(begins(m[i].0, q));
                assert(m[i].0.take(n as int) =~= m[i].0.take(q.len() as int).take(n as int));
            }
        }
    }
}

proof fn lemma_alike_takes(a: Seq<char>, b: Seq<char>)
    ensures
        alike(a, b) <= a.len(),
        alike(a, b) <= b.len(),
        a.take(alike(a, b) as int) == b.take(alike(a, b) as int),
    decreases a.len(),
{
    if a.len() > 0 && b.len() > 0 && a[0] == b[0] {
        lemma_alike_takes(a.skip(1), b.skip(1));
        let n = alike(a, b) as int;
        assert(a.take(n) =~= seq![a[0]] + a.skip(1).take(n - 1));
        assert(b.take(n) =~= seq![b[0]] + b.skip(1).take(n - 1));
    } else {
        assert(a.take(0) =~= b.take(0));
    }
}

/// Completing only adds to what was typed.
pub proof fn law_completion_extends(e: EditorView, v: Seq<(Seq<char>, bool)>)
    ensures
        begins(listed(e, v).command, e.command),
{
    let line = e.command;
    let (head, path) = cut_line(line);
    let (dir, name) = cut_path(path);
    lemma_word_start(line);
    lemma_name_start(path);
    assert(head + path =~= line);
    assert(dir + name =~= path);
    let m = candidates(line, v);
    if m.len() == 0 {
        assert(line.take(line.len() as int) =~= line);
    } else {
        lemma_matching(v, name, wants_song(text::trim(head)), v.len());
        let c = completion(m);
        assert(begins(c, name)) by {
            if m.len() == 1 {
                assert(begins(m[0].0, name));
                assert(c.take(name.len() as int) =~= m[0].0.take(name.len() as int));
            } else {
                lemma_shared(m, m.len(), name);
            }
        }
        assert((head + dir + c).take(line.len() as int) =~= head + dir + c.take(
            name.len() as int,
        ));
        assert(head + dir + name =~= line);
    }
}

impl Editor {
    /// The tab key of command mode.
    pub fn complete_path(&mut self)
        requires
            editor::valid(old(self)@),
        ensures
            final(self)@ == tabbed(old(self)@),
            editor::valid(final(self)@),
    {
        let k: usize = find_word_start(self.command.as_slice());
        let wanted: bool = is_file_command(text::trimmed(text::head(self.command.as_slice(), k)));
        if wanted {
            let path: Vec<char> = text::copy_of(text::tail(self.command.as_slice(), k));
            let n: usize = find_name_start(path.as_slice());
            let mut dir: Vec<char> = text::copy_of(text::head(path.as_slice(), n));
            if dir.len() == 0 {
                dir = text::chars_of(".");
            }
            self.leave_request(Request::List, dir);
        }
    }

    /// The directory of the request was listed.
    pub fn finish_listing(&mut self, entries: &Vec<(String, bool)>)
        requires
            editor::valid(old(self)@),
        ensures
            final(self)@ == listed(old(self)@, listing(entries@)),
            editor::valid(final(self)@),
    {
        let ghost e = self@;
        self.request = Request::Nothing;
        let k: usize = find_word_start(self.command.as_slice());
        let mut line: Vec<char> = text::copy_of(text::head(self.command.as_slice(), k));
        let path: Vec<char> = text::copy_of(text::tail(self.command.as_slice(), k));
        let cmd: &[char] = text::trimmed(line.as_slice());
        let song_only: bool = text::is_lit(cmd, "e") || text::is_lit(cmd, "edit");
        let n: usize = find_name_start(path.as_slice());
        let found: Vec<(Vec<char>, bool)> = find_matching(
            entries,
            text::tail(path.as_slice(), n),
            song_only,
        );
        let ghost m = entry_views(found@);
        assert(listing(entries@).len() == entries@.len());
        assert(m == candidates(e.command, listing(entries@)));
        assert(m.len() == found@.len());
        if found.len() == 0 {
            self.say_of(Status::NoMatches, path);
        } else {
            let c: Vec<char> = complete(&found);
            text::put(&mut line, text::head(path.as_slice(), n));
            text::put(&mut line, c.as_slice());
            self.command = line;
            if found.len() > 1 {
                let w: Vec<char> = summarize(&found);
                self.say_of(Status::Matches { n: found.len() }, w);
            } else {
                self.say(Status::Blank);
            }
        }
        assert(self@ =~= listed(e, listing(entries@)));
    }

    /// The directory of the request could not be listed.
    pub fn finish_no_directory(&mut self, dir: &str)
        requires
            editor::valid(old(self)@),
        ensures
            final(self)@ == not_listed(old(self)@, dir@),
            editor::valid(final(self)@),
    {
        self.request = Request::Nothing;
        let w: Vec<char> = text::chars_of(dir);
        self.say_of(Status::NoDirectory, w);
        assert(self@ =~= not_listed(old(self)@, dir@));
    }
}

} // verus!
