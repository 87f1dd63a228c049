//! Saving and loading: the text of a song reads back as the song.

use vstd::prelude::*;

use crate::song;
use crate::song::{Cell, ChainView, DpcmView, Instrument, SongView, CHANNELS, INSTRUMENTS, STEPS_PER_PHRASE};
use crate::text;
use crate::vip;
use crate::vip::layout;
use crate::vip::quote;
use crate::vip::reader;
use crate::vip::reader::{Fault, ReaderView, Section, VipError};
use crate::vip::writer;

verus! {

// ---------------------------------------------------------------- what can be stored

/// A grid of whole rows of writable cells.
pub open spec fn storable_grid(g: Seq<Seq<Cell>>) -> bool {
    &&& g.len() == STEPS_PER_PHRASE
    &&& forall|s: int| 0 <= s < STEPS_PER_PHRASE ==> (#[trigger] g[s]).len() == CHANNELS
    &&& forall|s: int, c: int|
        0 <= s < STEPS_PER_PHRASE && 0 <= c < CHANNELS ==> vip::writable_cell(#[trigger] g[s][c])
}

pub open spec fn storable_sample(r: DpcmView) -> bool {
    r.rate <= 15
}

pub open spec fn storable_chain(c: ChainView, phrases: nat) -> bool {
    &&& forall|i: int| 0 <= i < c.phrases.len() ==> #[trigger] c.phrases[i] < phrases
    &&& match c.name {
        Some(n) => n.len() > 0,
        None => true,
    }
}

pub open spec fn storable_level(m: i32) -> bool {
    m > i32::MIN
}

/// A song that its text says everything about.
pub open spec fn storable(s: SongView) -> bool {
    &&& s.phrases.len() > 0
    &&& forall|i: int| 0 <= i < s.phrases.len() ==> storable_grid(#[trigger] s.phrases[i])
    &&& s.current_phrase < s.phrases.len()
    &&& s.instruments.len() == INSTRUMENTS
    &&& forall|i: int|
        0 <= i < INSTRUMENTS ==> storable_level((#[trigger] s.instruments[i]).sustain)
            && storable_level(s.instruments[i].duty) && storable_level(s.instruments[i].volume)
    &&& forall|i: int| 0 <= i < s.order.len() ==> #[trigger] s.order[i] < s.phrases.len()
    &&& (s.loop_pos < s.order.len() || s.loop_pos == 0)
    &&& s.arrangement.len() > 0 ==> s.order.len() == 0
    &&& s.expansion ==> s.driver is Some
    &&& s.samples.len() <= 64
    &&& forall|i: int| 0 <= i < s.samples.len() ==> storable_sample(#[trigger] s.samples[i])
    &&& forall|i: int|
        0 <= i < s.chains.len() ==> storable_chain(#[trigger] s.chains[i], s.phrases.len())
    &&& forall|i: int| 0 <= i < s.arrangement.len() ==> #[trigger] s.arrangement[i] < s.chains.len()
    &&& (s.arr_loop < s.arrangement.len() || s.arr_loop == 0)
    &&& s.groove.len() == 16
    &&& s.channel_length.len() == CHANNELS
    &&& forall|i: int| 0 <= i < CHANNELS ==> 1 <= #[trigger] s.channel_length[i] <= 16
    &&& s.phrases.len() <= usize::MAX
    &&& s.chains.len() <= usize::MAX
}

// ---------------------------------------------------------------- running lines

pub proof fn lemma_run_add(st: ReaderView, n: nat, a: Seq<Seq<char>>, b: Seq<Seq<char>>)
    ensures
        match reader::run_lines(st, n, a) {
            Ok(mid) => reader::run_lines(st, n, a + b) == reader::run_lines(mid, n + a.len(), b),
            Err(e) => reader::run_lines(st, n, a + b) == Err::<ReaderView, VipError>(e),
        },
    decreases a.len(),
{
    if a.len() == 0 {
        assert(a + b =~= b);
    } else {
        assert((a + b)[0] == a[0]);
        assert((a + b).skip(1) =~= a.skip(1) + b);
        match reader::line_step(st, n, a[0]) {
            Ok(next) => {
                lemma_run_add(next, n + 1, a.skip(1), b);
            },
            Err(e) => {},
        }
    }
}

/// Whole lines that take the reader from one state to another.
pub open spec fn leads(st: ReaderView, ls: Seq<Seq<char>>, to: ReaderView) -> bool {
    &&& forall|i: int| 0 <= i < ls.len() ==> layout::one_line(#[trigger] ls[i])
    &&& forall|n: nat| #[trigger]
        reader::run_lines(st, n, ls) == Ok::<ReaderView, VipError>(to)
}

proof fn lemma_leads_add(
    a: ReaderView,
    x: Seq<Seq<char>>,
    b: ReaderView,
    y: Seq<Seq<char>>,
    c: ReaderView,
)
    requires
        leads(a, x, b),
        leads(b, y, c),
    ensures
        leads(a, x + y, c),
{
    assert forall|i: int| 0 <= i < (x + y).len() implies layout::one_line(
        #[trigger] (x + y)[i],
    ) by {
        if i < x.len() {
            assert((x + y)[i] == x[i]);
        } else {
            assert((x + y)[i] == y[i - x.len()]);
        }
    }
    assert forall|n: nat| #[trigger]
        reader::run_lines(a, n, x + y) == Ok::<ReaderView, VipError>(c) by {
        lemma_run_add(a, n, x, y);
        assert(reader::run_lines(a, n, x) == Ok::<ReaderView, VipError>(b));
        assert(reader::run_lines(b, n + x.len(), y) == Ok::<ReaderView, VipError>(c));
    }
}

proof fn lemma_leads_none(a: ReaderView)
    ensures
        leads(a, Seq::empty(), a),
{
}

/// A line that takes the reader from one state to another.
proof fn lemma_leads_line(a: ReaderView, line: Seq<char>, b: ReaderView)
    requires
        layout::one_line(line),
        forall|n: nat| #[trigger]
            reader::line_step(a, n, line) == Ok::<ReaderView, Fault>(b),
    ensures
        leads(a, seq![line], b),
{
    assert forall|n: nat| #[trigger]
        reader::run_lines(a, n, seq![line]) == Ok::<ReaderView, VipError>(b) by {
        assert(seq![line][0] == line);
        assert(reader::line_step(a, n, line) == Ok::<ReaderView, Fault>(b));
        assert(seq![line].skip(1) =~= Seq::<Seq<char>>::empty());
        reveal_with_fuel(reader::run_lines, 2);
    }
}

/// An empty line changes nothing.
proof fn lemma_blank_line(a: ReaderView)
    ensures
        leads(a, seq![Seq::<char>::empty()], a),
{
    let line = Seq::<char>::empty();
    assert(text::uncomment(line) =~= line);
    text::lemma_trim_tight(line);
    assert forall|n: nat| #[trigger]
        reader::line_step(a, n, line) == Ok::<ReaderView, Fault>(a) by {}
    lemma_leads_line(a, line, a);
}

/// A directive line does what its directive does.
proof fn lemma_directive_line(
    a: ReaderView,
    raw: Seq<char>,
    dir: Seq<char>,
    args: Seq<char>,
    b: ReaderView,
)
    requires
        layout::one_line(raw),
        layout::reads_as(raw, dir, args),
        forall|n: nat| #[trigger]
            reader::directive(a, n, dir, args) == Ok::<ReaderView, Fault>(b),
    ensures
        leads(a, seq![raw], b),
{
    assert forall|n: nat| #[trigger]
        reader::line_step(a, n, raw) == Ok::<ReaderView, Fault>(b) by {
        assert(reader::directive(a, n, dir, args) == Ok::<ReaderView, Fault>(b));
    }
    lemma_leads_line(a, raw, b);
}

// ---------------------------------------------------------------- small words

/// A key, `=` and a value with no surprises form a quiet word.
proof fn lemma_kv_word(k: Seq<char>, v: Seq<char>)
    requires
        layout::is_key(k),
        k[0] != '#',
        forall|i: int| 0 <= i < v.len() ==> !text::is_ws(#[trigger] v[i]),
    ensures
        layout::is_quiet(k + seq!['='] + v),
{
    let w = k + seq!['='] + v;
    assert(w[0] == k[0]);
    assert forall|i: int| 0 <= i < w.len() implies !text::is_ws(#[trigger] w[i]) by {
        if i < k.len() {
            assert(w[i] == k[i]);
        } else if i > k.len() {
            assert(w[i] == v[i - k.len() - 1]);
        }
    }
}

proof fn lemma_hex_word(n: nat, max: nat)
    requires
        n <= max,
    ensures
        layout::is_quiet(text::hex2(n)),
        text::parse_uint(text::hex2(n), 16, max) == Some(n),
{
    text::lemma_hex2(n, max);
    assert(text::is_alnum(text::hex2(n)[0]));
}

proof fn lemma_dec_value(n: nat, max: nat)
    requires
        n <= max,
    ensures
        text::parse_uint(text::dec(n), 10, max) == Some(n),
        forall|i: int| 0 <= i < text::dec(n).len() ==> !text::is_ws(#[trigger] text::dec(n)[i]),
{
    text::lemma_dec(n, max);
}

// ---------------------------------------------------------------- @song

proof fn lemma_song_keys()
    ensures
        "bpm="@ == "bpm"@ + seq!['='],
        "edit_step="@ == "edit_step"@ + seq!['='],
        "current="@ == "current"@ + seq!['='],
        "loop="@ == "loop"@ + seq!['='],
        "order=["@ == "order"@ + seq!['='] + seq!['['],
        "]"@ == seq![']'],
        layout::is_key("bpm"@) && "bpm"@[0] != '#',
        layout::is_key("edit_step"@) && "edit_step"@[0] != '#',
        layout::is_key("current"@) && "current"@[0] != '#',
        layout::is_key("loop"@) && "loop"@[0] != '#',
        layout::is_key("order"@) && "order"@[0] != '#',
        "edit_step"@ != "bpm"@,
        "current"@ != "bpm"@,
        "current"@ != "edit_step"@,
        "order"@ != "bpm"@,
        "order"@ != "edit_step"@,
        "order"@ != "current"@,
        "loop"@ != "bpm"@,
        "loop"@ != "edit_step"@,
        "loop"@ != "current"@,
        "loop"@ != "order"@,
{
    reveal_strlit("bpm=");
    reveal_strlit("bpm");
    reveal_strlit("edit_step=");
    reveal_strlit("edit_step");
    reveal_strlit("current=");
    reveal_strlit("current");
    reveal_strlit("loop=");
    reveal_strlit("loop");
    reveal_strlit("order=[");
    reveal_strlit("order");
    reveal_strlit("]");
    assert("bpm="@ =~= "bpm"@ + seq!['=']);
    assert("edit_step="@ =~= "edit_step"@ + seq!['=']);
    assert("current="@ =~= "current"@ + seq!['=']);
    assert("loop="@ =~= "loop"@ + seq!['=']);
    assert("order=["@ =~= "order"@ + seq!['='] + seq!['[']);
    assert("]"@ =~= seq![']']);
    assert("order"@[0] == 'o');
    assert("loop"@[0] == 'l');
}

proof fn lemma_hex_list_pieces(order: Seq<usize>, acc: Seq<usize>)
    requires
        order.len() > 0,
    ensures
        reader::order_entries(
            acc,
            text::pieces(writer::joined(writer::order_items(order), ','), ','),
        ) == Some(acc + order),
        forall|i: int|
            0 <= i < writer::joined(writer::order_items(order), ',').len() ==> text::is_alnum(
                #[trigger] writer::joined(writer::order_items(order), ',')[i],
            ) || writer::joined(writer::order_items(order), ',')[i] == ',',
    decreases order.len(),
{
    let items = writer::order_items(order);
    let s = writer::joined(items, ',');
    let x = order[0];
    let h = text::hex2(x as nat);
    text::lemma_hex2(x as nat, usize::MAX as nat);
    assert(items[0] == h);
    assert forall|i: int| 0 <= i < h.len() implies #[trigger] h[i] != ',' by {
        assert(text::is_alnum(h[i]));
    }
    assert(text::is_alnum(h[0]) && text::is_alnum(h[h.len() - 1]));
    text::lemma_trim_tight(h);
    if order.len() == 1 {
        assert(s == h);
        vip::lemma_pieces_last(h, ',');
        assert(seq![h][0] == h);
        assert(seq![h].skip(1) =~= Seq::<Seq<char>>::empty());
        reveal_with_fuel(reader::order_entries, 2);
        assert(acc.push(x) =~= acc + order);
    } else {
        let rest = order.skip(1);
        lemma_joined_front(items, ',');
        assert(items.skip(1) =~= writer::order_items(rest));
        let r = writer::joined(writer::order_items(rest), ',');
        assert(s == h + seq![','] + r);
        vip::lemma_pieces_step(h, r, ',');
        lemma_hex_list_pieces(rest, acc.push(x));
        let ps = text::pieces(s, ',');
        assert(ps =~= seq![h] + text::pieces(r, ','));
        assert(ps[0] == h);
        assert(ps.skip(1) =~= text::pieces(r, ','));
        assert(acc.push(x) + rest =~= acc + order);
        assert forall|i: int| 0 <= i < s.len() implies text::is_alnum(#[trigger] s[i]) || s[i]
            == ',' by {
            if i < h.len() {
                assert(s[i] == h[i]);
            } else if i > h.len() {
                assert(s[i] == r[i - h.len() - 1]);
            }
        }
    }
}

/// Joined items seen from the first.
proof fn lemma_joined_front(items: Seq<Seq<char>>, sep: char)
    requires
        items.len() >= 2,
    ensures
        writer::joined(items, sep) == items[0] + seq![sep] + writer::joined(items.skip(1), sep),
    decreases items.len(),
{
    if items.len() == 2 {
        assert(items.drop_last().len() == 1);
        assert(items.skip(1).len() == 1);
        reveal_with_fuel(writer::joined, 2);
        assert(writer::joined(items, sep) =~= items[0] + seq![sep] + writer::joined(
            items.skip(1),
            sep,
        ));
    } else {
        lemma_joined_front(items.drop_last(), sep);
        assert(items.drop_last().skip(1) =~= items.skip(1).drop_last());
        assert(writer::joined(items, sep) =~= items[0] + seq![sep] + writer::joined(
            items.skip(1),
            sep,
        ));
    }
}

proof fn lemma_order_value(order: Seq<usize>)
    requires
        order.len() > 0,
    ensures
        ({
            let v = seq!['['] + writer::joined(writer::order_items(order), ',') + seq![']'];
            &&& reader::parse_order(v) == Some(order)
            &&& forall|i: int| 0 <= i < v.len() ==> !text::is_ws(#[trigger] v[i])
        }),
{
    let j = writer::joined(writer::order_items(order), ',');
    let v = seq!['['] + j + seq![']'];
    lemma_hex_list_pieces(order, Seq::empty());
    lemma_joined_some(order);
    assert(v[0] == '[');
    assert(v.skip(1) =~= j + seq![']']);
    assert((j + seq![']'])[0] == j[0]);
    assert(text::is_alnum(j[0]) || j[0] == ',');
    reveal_with_fuel(reader::drop_front, 2);
    assert(reader::drop_front(v, '[') == j + seq![']']);
    let u = j + seq![']'];
    assert(u.last() == ']');
    assert(u.drop_last() =~= j);
    assert(text::is_alnum(j[j.len() - 1]) || j[j.len() - 1] == ',');
    reveal_with_fuel(reader::drop_back, 2);
    assert(reader::drop_back(u, ']') == j);
    assert(Seq::<usize>::empty() + order =~= order);
    assert forall|i: int| 0 <= i < v.len() implies !text::is_ws(#[trigger] v[i]) by {
        if 0 < i < v.len() - 1 {
            assert(v[i] == j[i - 1]);
        }
    }
}

proof fn lemma_joined_some(order: Seq<usize>)
    requires
        order.len() > 0,
    ensures
        writer::joined(writer::order_items(order), ',').len() > 0,
{
    let items = writer::order_items(order);
    text::lemma_hex2(order.last() as nat, usize::MAX as nat);
    assert(items.last() == text::hex2(order.last() as nat));
}

/// The song with what its `@song` line says.
pub open spec fn with_song(s: SongView, base: SongView) -> SongView {
    SongView {
        bpm: s.bpm,
        edit_step: s.edit_step,
        current_phrase: s.current_phrase,
        order: if writer::writes_order(s) {
            s.order
        } else {
            base.order
        },
        loop_pos: if writer::writes_order(s) {
            s.loop_pos
        } else {
            base.loop_pos
        },
        ..base
    }
}

proof fn lemma_bpm_word(song: SongView, n: u16)
    ensures
        reader::song_word(song, "bpm="@ + text::dec(n as nat)) == Ok::<SongView, Fault>(
            SongView { bpm: n, ..song },
        ),
        layout::is_quiet("bpm="@ + text::dec(n as nat)),
{
    lemma_song_keys();
    lemma_dec_value(n as nat, u16::MAX as nat);
    lemma_cut("bpm"@, text::dec(n as nat));
    lemma_kv_word("bpm"@, text::dec(n as nat));
}

proof fn lemma_edit_step_word(song: SongView, n: usize)
    ensures
        reader::song_word(song, "edit_step="@ + text::dec(n as nat)) == Ok::<SongView, Fault>(
            SongView { edit_step: n, ..song },
        ),
        layout::is_quiet("edit_step="@ + text::dec(n as nat)),
{
    lemma_song_keys();
    lemma_dec_value(n as nat, usize::MAX as nat);
    lemma_cut("edit_step"@, text::dec(n as nat));
    lemma_kv_word("edit_step"@, text::dec(n as nat));
}

proof fn lemma_current_word(song: SongView, n: usize)
    ensures
        reader::song_word(song, "current="@ + text::hex2(n as nat)) == Ok::<SongView, Fault>(
            SongView { current_phrase: n, ..song },
        ),
        layout::is_quiet("current="@ + text::hex2(n as nat)),
{
    lemma_song_keys();
    lemma_hex_word(n as nat, usize::MAX as nat);
    lemma_cut("current"@, text::hex2(n as nat));
    lemma_kv_word("current"@, text::hex2(n as nat));
}

proof fn lemma_loop_word(song: SongView, n: usize)
    ensures
        reader::song_word(song, "loop="@ + text::hex2(n as nat)) == Ok::<SongView, Fault>(
            SongView { loop_pos: n, ..song },
        ),
        layout::is_quiet("loop="@ + text::hex2(n as nat)),
        text::cut_word("loop="@ + text::hex2(n as nat)) == Some(("loop"@, text::hex2(n as nat))),
{
    lemma_song_keys();
    lemma_hex_word(n as nat, usize::MAX as nat);
    lemma_cut("loop"@, text::hex2(n as nat));
    lemma_kv_word("loop"@, text::hex2(n as nat));
}

proof fn lemma_order_word(song: SongView, order: Seq<usize>)
    requires
        order.len() > 0,
    ensures
        reader::song_word(
            song,
            "order=["@ + writer::joined(writer::order_items(order), ',') + "]"@,
        ) == Ok::<SongView, Fault>(SongView { order, ..song }),
        layout::is_quiet("order=["@ + writer::joined(writer::order_items(order), ',') + "]"@),
{
    lemma_song_keys();
    lemma_order_value(order);
    let j = writer::joined(writer::order_items(order), ',');
    let b = seq!['['] + j + seq![']'];
    assert("order=["@ + j + "]"@ =~= "order"@ + seq!['='] + b);
    lemma_cut("order"@, b);
    lemma_kv_word("order"@, b);
}

proof fn lemma_song_line(a: ReaderView, s: SongView)
    requires
        storable(s),
    ensures
        leads(
            a,
            seq![writer::song_line(s)],
            ReaderView { song: with_song(s, a.song), section: Section::Nothing, ..a },
        ),
{
    reveal_strlit("@song");
    reveal_strlit("song");
    assert("@song"@ =~= seq!['@'] + "song"@);
    let w1 = "bpm="@ + text::dec(s.bpm as nat);
    let w2 = "edit_step="@ + text::dec(s.edit_step as nat);
    let w3 = "current="@ + text::hex2(s.current_phrase as nat);
    let s1 = SongView { bpm: s.bpm, ..a.song };
    let s2 = SongView { edit_step: s.edit_step, ..s1 };
    let s3 = SongView { current_phrase: s.current_phrase, ..s2 };
    lemma_bpm_word(a.song, s.bpm);
    lemma_edit_step_word(s1, s.edit_step);
    lemma_current_word(s2, s.current_phrase);
    let done = ReaderView { song: with_song(s, a.song), section: Section::Nothing, ..a };
    if writer::writes_order(s) {
        let w4 = "order=["@ + writer::joined(writer::order_items(s.order), ',') + "]"@;
        let w5 = "loop="@ + text::hex2(s.loop_pos as nat);
        let s4 = SongView { order: s.order, ..s3 };
        let s5 = SongView { loop_pos: s.loop_pos, ..s4 };
        lemma_order_word(s3, s.order);
        lemma_loop_word(s4, s.loop_pos);
        lemma_fold5(a.song, s1, s2, s3, s4, s5, w1, w2, w3, w4, w5);
        let rest = seq![(w1, 2nat), (w2, 2nat), (w3, 2nat), (w4, 2nat), (w5, 0nat)];
        assert(layout::firsts(rest) =~= seq![w1, w2, w3, w4, w5]);
        lemma_song_words_line(a, rest, s5);
        assert(s5 == with_song(s, a.song));
        assert(seq![(seq!['@'] + "song"@, 2nat)] + rest =~= seq![
            ("@song"@, 2nat),
            (w1, 2nat),
            (w2, 2nat),
            (w3, 2nat),
            (w4, 2nat),
            (w5, 0nat),
        ]);
    } else {
        lemma_fold3(a.song, s1, s2, s3, w1, w2, w3);
        let rest = seq![(w1, 2nat), (w2, 2nat), (w3, 0nat)];
        assert(layout::firsts(rest) =~= seq![w1, w2, w3]);
        lemma_song_words_line(a, rest, s3);
        assert(s3 == with_song(s, a.song));
        assert(seq![(seq!['@'] + "song"@, 2nat)] + rest =~= seq![
            ("@song"@, 2nat),
            (w1, 2nat),
            (w2, 2nat),
            (w3, 0nat),
        ]);
    }
}

/// An `@song` line of quiet words.
proof fn lemma_song_words_line(a: ReaderView, rest: Seq<(Seq<char>, nat)>, to: SongView)
    requires
        layout::spaced(rest),
        rest.len() > 0,
        rest.last().1 == 0,
        reader::song_words(a.song, layout::firsts(rest)) == Ok::<SongView, Fault>(to),
    ensures
        leads(
            a,
            seq![writer::laid(seq![(seq!['@'] + "song"@, 2nat)] + rest)],
            ReaderView { song: to, section: Section::Nothing, ..a },
        ),
{
    reveal_strlit("song");
    layout::lemma_laid_directive("song"@, 2, rest);
    lemma_directive_line(
        a,
        writer::laid(seq![(seq!['@'] + "song"@, 2nat)] + rest),
        "song"@,
        writer::laid(rest),
        ReaderView { song: to, section: Section::Nothing, ..a },
    );
}

proof fn lemma_cut(k: Seq<char>, v: Seq<char>)
    requires
        layout::is_key(k),
    ensures
        text::cut_word(k + seq!['='] + v) == Some((k, v)),
{
    layout::lemma_cut(k, v);
}

proof fn lemma_fold3(
    s0: SongView,
    s1: SongView,
    s2: SongView,
    s3: SongView,
    w1: Seq<char>,
    w2: Seq<char>,
    w3: Seq<char>,
)
    requires
        reader::song_word(s0, w1) == Ok::<SongView, Fault>(s1),
        reader::song_word(s1, w2) == Ok::<SongView, Fault>(s2),
        reader::song_word(s2, w3) == Ok::<SongView, Fault>(s3),
    ensures
        reader::song_words(s0, seq![w1, w2, w3]) == Ok::<SongView, Fault>(s3),
{
    let ws = seq![w1, w2, w3];
    assert(ws.skip(1) =~= seq![w2, w3]);
    assert(seq![w2, w3].skip(1) =~= seq![w3]);
    assert(seq![w3].skip(1) =~= Seq::<Seq<char>>::empty());
    reveal_with_fuel(reader::song_words, 2);
    assert(reader::song_words(s2, seq![w3]) == Ok::<SongView, Fault>(s3));
    assert(reader::song_words(s1, seq![w2, w3]) == Ok::<SongView, Fault>(s3));
}

proof fn lemma_fold5(
    s0: SongView,
    s1: SongView,
    s2: SongView,
    s3: SongView,
    s4: SongView,
    s5: SongView,
    w1: Seq<char>,
    w2: Seq<char>,
    w3: Seq<char>,
    w4: Seq<char>,
    w5: Seq<char>,
)
    requires
        reader::song_word(s0, w1) == Ok::<SongView, Fault>(s1),
        reader::song_word(s1, w2) == Ok::<SongView, Fault>(s2),
        reader::song_word(s2, w3) == Ok::<SongView, Fault>(s3),
        reader::song_word(s3, w4) == Ok::<SongView, Fault>(s4),
        reader::song_word(s4, w5) == Ok::<SongView, Fault>(s5),
    ensures
        reader::song_words(s0, seq![w1, w2, w3, w4, w5]) == Ok::<SongView, Fault>(s5),
{
    lemma_fold3(s2, s3, s4, s5, w3, w4, w5);
    let ws = seq![w1, w2, w3, w4, w5];
    assert(ws.skip(1) =~= seq![w2, w3, w4, w5]);
    assert(seq![w2, w3, w4, w5].skip(1) =~= seq![w3, w4, w5]);
    assert(reader::song_words(s1, seq![w2, w3, w4, w5]) == Ok::<SongView, Fault>(s5));
}


// ---------------------------------------------------------------- @meta

pub open spec fn meta_one(k: Seq<char>, v: Seq<char>) -> Seq<(Seq<char>, Seq<char>)> {
    if v.len() == 0 {
        Seq::empty()
    } else {
        seq![(k, v)]
    }
}

/// The fields an `@meta` line writes.
pub open spec fn meta_fields(s: SongView) -> Seq<(Seq<char>, Seq<char>)> {
    meta_one("title"@, s.title) + meta_one("artist"@, s.artist) + meta_one(
        "license"@,
        s.copyright,
    ) + meta_one("key"@, s.key_name)
}

proof fn lemma_meta_keys()
    ensures
        " title="@ == seq![' '] + "title"@ + seq!['='],
        " artist="@ == seq![' '] + "artist"@ + seq!['='],
        " license="@ == seq![' '] + "license"@ + seq!['='],
        " key="@ == seq![' '] + "key"@ + seq!['='],
        "@meta "@ == seq!['@'] + "meta"@ + seq![' '],
        layout::is_key("title"@) && layout::is_quiet("title"@),
        layout::is_key("artist"@) && layout::is_quiet("artist"@),
        layout::is_key("license"@) && layout::is_quiet("license"@),
        layout::is_key("key"@) && layout::is_quiet("key"@),
        layout::is_word("meta"@),
        forall|i: int| 0 <= i < "title"@.len() ==> #[trigger] "title"@[i] != '#',
        forall|i: int| 0 <= i < "artist"@.len() ==> #[trigger] "artist"@[i] != '#',
        forall|i: int| 0 <= i < "license"@.len() ==> #[trigger] "license"@[i] != '#',
        forall|i: int| 0 <= i < "key"@.len() ==> #[trigger] "key"@[i] != '#',
        forall|i: int| 0 <= i < "meta"@.len() ==> #[trigger] "meta"@[i] != '#',
        "artist"@ != "title"@,
        "license"@ != "title"@,
        "license"@ != "artist"@,
        "license"@ != "composer"@,
        "license"@ != "author"@,
        "key"@ != "title"@,
        "key"@ != "artist"@,
        "key"@ != "composer"@,
        "key"@ != "author"@,
        "key"@ != "license"@,
        "key"@ != "copyright"@,
{
    reveal_strlit(" title=");
    reveal_strlit(" artist=");
    reveal_strlit(" license=");
    reveal_strlit(" key=");
    reveal_strlit("@meta ");
    reveal_strlit("meta");
    reveal_strlit("title");
    reveal_strlit("artist");
    reveal_strlit("license");
    reveal_strlit("key");
    reveal_strlit("composer");
    reveal_strlit("author");
    reveal_strlit("copyright");
    assert(" title="@ =~= seq![' '] + "title"@ + seq!['=']);
    assert(" artist="@ =~= seq![' '] + "artist"@ + seq!['=']);
    assert(" license="@ =~= seq![' '] + "license"@ + seq!['=']);
    assert(" key="@ =~= seq![' '] + "key"@ + seq!['=']);
    assert("@meta "@ =~= seq!['@'] + "meta"@ + seq![' ']);
    assert("artist"@[1] == 'r' && "author"@[1] == 'u');
}

proof fn lemma_meta_field(k: Seq<char>, name: Seq<char>, v: Seq<char>)
    requires
        name == seq![' '] + k + seq!['='],
    ensures
        writer::meta_field(name, v) == layout::spread(meta_one(k, v)),
{
    if v.len() > 0 {
        let ps = meta_one(k, v);
        assert(ps.skip(1) =~= Seq::<(Seq<char>, Seq<char>)>::empty());
        assert(layout::spread(ps.skip(1)) =~= Seq::<char>::empty());
        assert(ps[0] == (k, v));
        assert(writer::meta_field(name, v) =~= layout::spread(ps));
    } else {
        assert(writer::meta_field(name, v) =~= layout::spread(meta_one(k, v)));
    }
}

proof fn lemma_meta_pairs_add(
    song: SongView,
    a: Seq<(Seq<char>, Seq<char>)>,
    b: Seq<(Seq<char>, Seq<char>)>,
)
    ensures
        reader::meta_pairs(song, a + b) == reader::meta_pairs(reader::meta_pairs(song, a), b),
    decreases a.len(),
{
    if a.len() == 0 {
        assert(a + b =~= b);
    } else {
        assert((a + b)[0] == a[0]);
        assert((a + b).skip(1) =~= a.skip(1) + b);
        let one = seq![a[0]];
        let next = reader::meta_pairs(song, one);
        assert(one.skip(1) =~= Seq::<(Seq<char>, Seq<char>)>::empty());
        reveal_with_fuel(reader::meta_pairs, 2);
        lemma_meta_pairs_add(next, a.skip(1), b);
    }
}

pub open spec fn with_meta(s: SongView, base: SongView) -> SongView {
    SongView {
        title: s.title,
        artist: s.artist,
        copyright: s.copyright,
        key_name: s.key_name,
        ..base
    }
}

proof fn lemma_meta_effect(s: SongView, base: SongView)
    requires
        base.title.len() == 0,
        base.artist.len() == 0,
        base.copyright.len() == 0,
        base.key_name.len() == 0,
    ensures
        reader::meta_pairs(base, meta_fields(s)) == with_meta(s, base),
{
    lemma_meta_keys();
    let f1 = meta_one("title"@, s.title);
    let f2 = meta_one("artist"@, s.artist);
    let f3 = meta_one("license"@, s.copyright);
    let f4 = meta_one("key"@, s.key_name);
    lemma_meta_pairs_add(base, f1 + f2 + f3, f4);
    lemma_meta_pairs_add(base, f1 + f2, f3);
    lemma_meta_pairs_add(base, f1, f2);
    reveal_with_fuel(reader::meta_pairs, 2);
    let none = Seq::<(Seq<char>, Seq<char>)>::empty();
    assert(s.title.len() == 0 ==> s.title =~= base.title);
    assert(s.artist.len() == 0 ==> s.artist =~= base.artist);
    assert(s.copyright.len() == 0 ==> s.copyright =~= base.copyright);
    assert(s.key_name.len() == 0 ==> s.key_name =~= base.key_name);
    assert(f1.len() > 0 ==> f1.skip(1) =~= none);
    assert(f2.len() > 0 ==> f2.skip(1) =~= none);
    assert(f3.len() > 0 ==> f3.skip(1) =~= none);
    assert(f4.len() > 0 ==> f4.skip(1) =~= none);
    let b1 = SongView { title: s.title, ..base };
    assert(reader::meta_pairs(base, f1) == b1);
    let b2 = SongView { artist: s.artist, ..b1 };
    assert(reader::meta_pairs(b1, f2) == b2);
    let b3 = SongView { copyright: s.copyright, ..b2 };
    assert(reader::meta_pairs(b2, f3) == b3);
    let b4 = SongView { key_name: s.key_name, ..b3 };
    assert(reader::meta_pairs(b3, f4) == b4);
}

/// Every field of an `@meta` line has a key that reads back.
proof fn lemma_meta_sound(s: SongView)
    ensures
        layout::sound_pairs(layout::all_quoted(meta_fields(s))),
{
    lemma_meta_keys();
    let f1 = meta_one("title"@, s.title);
    let f2 = meta_one("artist"@, s.artist);
    let f3 = meta_one("license"@, s.copyright);
    let f4 = meta_one("key"@, s.key_name);
    let fs = meta_fields(s);
    let qs = layout::all_quoted(fs);
    assert forall|i: int| 0 <= i < qs.len() implies layout::sound_pair(#[trigger] qs[i]) by {
        let n1 = f1.len() as int;
        let n2 = (f1 + f2).len() as int;
        let n3 = (f1 + f2 + f3).len() as int;
        assert(qs[i] == (fs[i].0, fs[i].1, true));
        if i < n1 {
            assert(fs[i] == f1[i]);
        } else if i < n2 {
            assert(fs[i] == f2[i - n1]);
        } else if i < n3 {
            assert(fs[i] == f3[i - n2]);
        } else {
            assert(fs[i] == f4[i - n3]);
        }
    }
}

proof fn lemma_meta_text(s: SongView)
    requires
        storable(s),
    ensures
        writer::meta_line(s) == "@meta "@ + layout::spread(meta_fields(s)),
{
    lemma_meta_keys();
    lemma_meta_field("title"@, " title="@, s.title);
    lemma_meta_field("artist"@, " artist="@, s.artist);
    lemma_meta_field("license"@, " license="@, s.copyright);
    lemma_meta_field("key"@, " key="@, s.key_name);
    let f1 = meta_one("title"@, s.title);
    let f2 = meta_one("artist"@, s.artist);
    let f3 = meta_one("license"@, s.copyright);
    let f4 = meta_one("key"@, s.key_name);
    layout::lemma_spread_add(f1, f2);
    layout::lemma_spread_add(f1 + f2, f3);
    layout::lemma_spread_add(f1 + f2 + f3, f4);
    assert(writer::meta_line(s) =~= "@meta "@ + layout::spread(meta_fields(s)));
}

proof fn lemma_meta_lines(a: ReaderView, s: SongView)
    requires
        storable(s),
        a.song.title.len() == 0,
        a.song.artist.len() == 0,
        a.song.copyright.len() == 0,
        a.song.key_name.len() == 0,
        a.section == Section::Nothing,
    ensures
        leads(
            a,
            writer::one_if(writer::has_meta(s), writer::meta_line(s)),
            ReaderView { song: with_meta(s, a.song), ..a },
        ),
{
    lemma_meta_effect(s, a.song);
    let to = ReaderView { song: with_meta(s, a.song), ..a };
    let fs = meta_fields(s);
    if writer::has_meta(s) {
        lemma_meta_keys();
        lemma_meta_text(s);
        lemma_meta_sound(s);
        let qs = layout::all_quoted(fs);
        let r = layout::pair_line(qs, 1);
        let raw = writer::meta_line(s);
        layout::lemma_spread_line(fs);
        layout::lemma_pair_line(qs, 1);
        layout::lemma_pair_directive("meta"@, 2, qs, 1);
        assert(raw =~= seq!['@'] + "meta"@ + writer::sp(2) + r);
        lemma_meta_directive(a, r, to);
        lemma_directive_line(a, raw, "meta"@, r, to);
    } else {
        assert(fs =~= Seq::<(Seq<char>, Seq<char>)>::empty());
        lemma_leads_none(a);
    }
}

proof fn lemma_meta_directive(a: ReaderView, args: Seq<char>, to: ReaderView)
    requires
        to == (ReaderView {
            song: reader::meta_pairs(a.song, quote::pairs(args)),
            section: Section::Nothing,
            ..a
        }),
    ensures
        forall|n: nat| #[trigger]
            reader::directive(a, n, "meta"@, args) == Ok::<ReaderView, Fault>(to),
{
    reveal_strlit("meta");
    reveal_strlit("song");
    reveal_strlit("phrase");
    reveal_strlit("chain");
    reveal_strlit("arrangement");
    reveal_strlit("arr");
    reveal_strlit("groove");
    reveal_strlit("length");
    reveal_strlit("len");
    reveal_strlit("instr");
    assert("meta"@[0] == 'm' && "song"@[0] == 's');
}

// ---------------------------------------------------------------- @driver

proof fn lemma_driver_directive(a: ReaderView, args: Seq<char>, to: ReaderView)
    requires
        to == (ReaderView {
            song: reader::driver_line(a.song, args),
            section: Section::Nothing,
            ..a
        }),
    ensures
        forall|n: nat| #[trigger]
            reader::directive(a, n, "driver"@, args) == Ok::<ReaderView, Fault>(to),
{
    reveal_strlit("driver");
    reveal_strlit("song");
    reveal_strlit("phrase");
    reveal_strlit("chain");
    reveal_strlit("arrangement");
    reveal_strlit("arr");
    reveal_strlit("groove");
    reveal_strlit("length");
    reveal_strlit("len");
    reveal_strlit("instr");
    reveal_strlit("meta");
    assert("driver"@[0] == 'd' && "phrase"@[0] == 'p' && "groove"@[0] == 'g' && "length"@[0]
        == 'l');
}

proof fn lemma_driver_keys()
    ensures
        "@driver"@ == seq!['@'] + "driver"@,
        "bin="@ == "bin"@ + seq!['='],
        "sym="@ == "sym"@ + seq!['='],
        "expansion="@ == "expansion"@ + seq!['='],
        layout::is_key("bin"@) && "bin"@[0] != '#',
        layout::is_key("sym"@) && "sym"@[0] != '#',
        layout::is_key("expansion"@) && "expansion"@[0] != '#',
        layout::is_word("driver"@),
        quote::is_bare("vrc6"@),
        quote::is_bare("none"@),
        text::lower("vrc6"@) == "vrc6"@,
        text::lower("none"@) != "vrc6"@,
        "sym"@ != "bin"@,
        "sym"@ != "path"@,
        "expansion"@ != "bin"@,
        "expansion"@ != "path"@,
        "expansion"@ != "sym"@,
{
    reveal_strlit("@driver");
    reveal_strlit("driver");
    reveal_strlit("bin=");
    reveal_strlit("bin");
    reveal_strlit("sym=");
    reveal_strlit("sym");
    reveal_strlit("path");
    reveal_strlit("expansion=");
    reveal_strlit("expansion");
    reveal_strlit("vrc6");
    reveal_strlit("none");
    assert("@driver"@ =~= seq!['@'] + "driver"@);
    assert("bin="@ =~= "bin"@ + seq!['=']);
    assert("sym="@ =~= "sym"@ + seq!['=']);
    assert("expansion="@ =~= "expansion"@ + seq!['=']);
    assert(text::lower("vrc6"@) =~= "vrc6"@);
    assert(text::lower("none"@)[0] == 'n');
    assert("sym"@[0] == 's' && "bin"@[0] == 'b');
}

pub open spec fn with_driver(s: SongView, base: SongView) -> SongView {
    SongView { driver: s.driver, expansion: s.expansion, ..base }
}

/// The pairs of a driver line, and how they are written.
spec fn driver_written(bin: Seq<char>, sym: Seq<char>, e: Seq<char>) -> Seq<
    (Seq<char>, Seq<char>, bool),
> {
    seq![layout::written("bin"@, bin), layout::written("sym"@, sym), ("expansion"@, e, false)]
}

proof fn lemma_driver_text(bin: Seq<char>, sym: Seq<char>, expansion: bool, e: Seq<char>)
    requires
        e == (if expansion {
            "vrc6"@
        } else {
            "none"@
        }),
    ensures
        writer::driver_text(bin, sym, expansion) == seq!['@'] + "driver"@ + writer::sp(2)
            + layout::pair_line(driver_written(bin, sym, e), 2),
{
    lemma_driver_keys();
    let w1 = "bin="@ + quote::value_text(bin);
    let w2 = "sym="@ + quote::value_text(sym);
    let w3 = "expansion="@ + e;
    let t3 = seq![(w3, 0nat)];
    let t2 = seq![(w2, 2nat), (w3, 0nat)];
    let t1 = seq![(w1, 2nat), (w2, 2nat), (w3, 0nat)];
    let t0 = seq![("@driver"@, 2nat), (w1, 2nat), (w2, 2nat), (w3, 0nat)];
    layout::lemma_laid_last_word(w3);
    layout::lemma_laid_word(w2, 2, t3, t2);
    layout::lemma_laid_word(w1, 2, t2, t1);
    layout::lemma_laid_word("@driver"@, 2, t1, t0);
    layout::lemma_written("bin"@, bin);
    layout::lemma_written("sym"@, sym);
    layout::lemma_pair_line_of_three(
        layout::written("bin"@, bin),
        layout::written("sym"@, sym),
        ("expansion"@, e, false),
        2,
    );
    assert(layout::pair_text(("expansion"@, e, false)) == w3);
}

proof fn lemma_driver_pairs(bin: Seq<char>, sym: Seq<char>, e: Seq<char>, was: bool)
    ensures
        reader::driver_pairs(
            None,
            None,
            was,
            seq![("bin"@, bin), ("sym"@, sym), ("expansion"@, e)],
        ) == (Some(bin), Some(sym), text::lower(e) == "vrc6"@),
{
    lemma_driver_keys();
    let q0 = seq![("bin"@, bin), ("sym"@, sym), ("expansion"@, e)];
    let q1 = seq![("sym"@, sym), ("expansion"@, e)];
    let q2 = seq![("expansion"@, e)];
    let q3 = Seq::<(Seq<char>, Seq<char>)>::empty();
    assert(q0.skip(1) =~= q1);
    assert(q1.skip(1) =~= q2);
    assert(q2.skip(1) =~= q3);
    let x = text::lower(e) == "vrc6"@;
    assert(reader::driver_pairs(Some(bin), Some(sym), x, q3) == (Some(bin), Some(sym), x));
    assert(reader::driver_pairs(Some(bin), Some(sym), was, q2) == (Some(bin), Some(sym), x));
    assert(reader::driver_pairs(Some(bin), None, was, q1) == (Some(bin), Some(sym), x));
}

proof fn lemma_driver_lines(a: ReaderView, s: SongView)
    requires
        storable(s),
        a.song.driver is None,
        !a.song.expansion,
        a.section == Section::Nothing,
    ensures
        leads(a, writer::driver_lines(s), ReaderView { song: with_driver(s, a.song), ..a }),
{
    let to = ReaderView { song: with_driver(s, a.song), ..a };
    match s.driver {
        None => {
            lemma_leads_none(a);
            assert(to == a);
        },
        Some((bin, sym)) => {
            lemma_driver_keys();
            let e = if s.expansion {
                "vrc6"@
            } else {
                "none"@
            };
            let ps = driver_written(bin, sym, e);
            let rest = layout::pair_line(ps, 2);
            assert(layout::sound_pairs(ps));
            assert(layout::bare_of(ps) =~= seq![("bin"@, bin), ("sym"@, sym), ("expansion"@, e)]);
            layout::lemma_pair_line(ps, 2);
            layout::lemma_pair_directive("driver"@, 2, ps, 2);
            lemma_driver_text(bin, sym, s.expansion, e);
            lemma_driver_pairs(bin, sym, e, a.song.expansion);
            assert(reader::driver_line(a.song, rest) == with_driver(s, a.song));
            lemma_driver_directive(a, rest, to);
            lemma_directive_line(
                a,
                writer::driver_text(bin, sym, s.expansion),
                "driver"@,
                rest,
                to,
            );
        },
    }
}

// ---------------------------------------------------------------- @dpcm

proof fn lemma_sample_directive(a: ReaderView, args: Seq<char>, song: SongView)
    requires
        reader::sample_line(a.song, args) == Ok::<SongView, Fault>(song),
    ensures
        forall|n: nat| #[trigger]
            reader::directive(a, n, "dpcm"@, args) == Ok::<ReaderView, Fault>(
                ReaderView { song, section: Section::Nothing, ..a },
            ),
{
    reveal_strlit("dpcm");
    reveal_strlit("song");
    reveal_strlit("phrase");
    reveal_strlit("chain");
    reveal_strlit("arrangement");
    reveal_strlit("arr");
    reveal_strlit("groove");
    reveal_strlit("length");
    reveal_strlit("len");
    reveal_strlit("instr");
    reveal_strlit("meta");
    reveal_strlit("driver");
    assert("dpcm"@[0] == 'd' && "song"@[0] == 's' && "meta"@[0] == 'm');
    assert("dpcm"@.len() == 4 && "driver"@.len() == 6);
    assert("dpcm"@ != "song"@);
    assert("dpcm"@ != "phrase"@);
    assert("dpcm"@ != "chain"@);
    assert("dpcm"@ != "arrangement"@);
    assert("dpcm"@ != "arr"@);
    assert("dpcm"@ != "groove"@);
    assert("dpcm"@ != "length"@);
    assert("dpcm"@ != "len"@);
    assert("dpcm"@ != "instr"@);
    assert("dpcm"@ != "meta"@);
    assert("dpcm"@ != "driver"@);
}

proof fn lemma_sample_keys()
    ensures
        "@dpcm"@ == seq!['@'] + "dpcm"@,
        "name="@ == "name"@ + seq!['='],
        "path="@ == "path"@ + seq!['='],
        "rate="@ == "rate"@ + seq!['='],
        layout::is_key("name"@) && "name"@[0] != '#',
        layout::is_key("path"@) && "path"@[0] != '#',
        layout::is_key("rate"@) && "rate"@[0] != '#',
        layout::is_word("dpcm"@),
        "path"@ != "name"@,
        "rate"@ != "name"@,
        "rate"@ != "path"@,
        "rate"@ != "file"@,
{
    reveal_strlit("@dpcm");
    reveal_strlit("dpcm");
    reveal_strlit("name=");
    reveal_strlit("name");
    reveal_strlit("path=");
    reveal_strlit("path");
    reveal_strlit("rate=");
    reveal_strlit("rate");
    reveal_strlit("file");
    assert("@dpcm"@ =~= seq!['@'] + "dpcm"@);
    assert("name="@ =~= "name"@ + seq!['=']);
    assert("path="@ =~= "path"@ + seq!['=']);
    assert("rate="@ =~= "rate"@ + seq!['=']);
    assert("rate"@[0] == 'r' && "name"@[0] == 'n' && "path"@[0] == 'p' && "file"@[0] == 'f');
}

/// The pairs of a sample line, and how they are written.
spec fn sample_written(r: DpcmView) -> Seq<(Seq<char>, Seq<char>, bool)> {
    if r.rate != 15 {
        seq![
            layout::written("name"@, r.name),
            layout::written("path"@, r.path),
            ("rate"@, text::dec(r.rate as nat), false),
        ]
    } else {
        seq![layout::written("name"@, r.name), layout::written("path"@, r.path)]
    }
}

proof fn lemma_sample_text(i: nat, r: DpcmView)
    ensures
        writer::sample_text(i, r) == seq!['@'] + "dpcm"@ + writer::sp(1) + (text::hex2(i)
            + writer::sp(2) + layout::pair_line(sample_written(r), 2)),
{
    lemma_sample_keys();
    let h = text::hex2(i);
    let w1 = "name="@ + quote::value_text(r.name);
    let w2 = "path="@ + quote::value_text(r.path);
    let w3 = "rate="@ + text::dec(r.rate as nat);
    layout::lemma_written("name"@, r.name);
    layout::lemma_written("path"@, r.path);
    let at = "@dpcm"@ + writer::sp(1);
    if r.rate != 15 {
        let t3 = seq![(w3, 0nat)];
        let t2 = seq![(w2, 2nat), (w3, 0nat)];
        let t1 = seq![(w1, 2nat), (w2, 2nat), (w3, 0nat)];
        let t = seq![(h, 2nat), (w1, 2nat), (w2, 2nat), (w3, 0nat)];
        let t0 = seq![("@dpcm"@, 1nat), (h, 2nat), (w1, 2nat), (w2, 2nat), (w3, 0nat)];
        layout::lemma_laid_last_word(w3);
        layout::lemma_laid_word(w2, 2, t3, t2);
        layout::lemma_laid_word(w1, 2, t2, t1);
        layout::lemma_laid_word(h, 2, t1, t);
        layout::lemma_laid_word("@dpcm"@, 1, t, t0);
        layout::lemma_pair_line_of_three(
            layout::written("name"@, r.name),
            layout::written("path"@, r.path),
            ("rate"@, text::dec(r.rate as nat), false),
            2,
        );
        assert(layout::pair_text(("rate"@, text::dec(r.rate as nat), false)) == w3);
    } else {
        let t2 = seq![(w2, 0nat)];
        let t1 = seq![(w1, 2nat), (w2, 0nat)];
        let t = seq![(h, 2nat), (w1, 2nat), (w2, 0nat)];
        let t0 = seq![("@dpcm"@, 1nat), (h, 2nat), (w1, 2nat), (w2, 0nat)];
        layout::lemma_laid_last_word(w2);
        layout::lemma_laid_word(w1, 2, t2, t1);
        layout::lemma_laid_word(h, 2, t1, t);
        layout::lemma_laid_word("@dpcm"@, 1, t, t0);
        layout::lemma_pair_line_of_two(
            layout::written("name"@, r.name),
            layout::written("path"@, r.path),
            2,
        );
    }
}

proof fn lemma_sample_pairs(d: Seq<char>, r: DpcmView)
    requires
        r.rate <= 15,
    ensures
        reader::sample_pairs(d, None, 15, layout::bare_of(sample_written(r))) == Ok::<
            (Seq<char>, Option<Seq<char>>, u8),
            Fault,
        >((r.name, Some(r.path), r.rate)),
{
    lemma_sample_keys();
    lemma_dec_value(r.rate as nat, 255);
    let q0 = layout::bare_of(sample_written(r));
    let q1 = q0.skip(1);
    let q2 = q1.skip(1);
    let q3 = q2.skip(1);
    let done = Ok::<(Seq<char>, Option<Seq<char>>, u8), Fault>((r.name, Some(r.path), r.rate));
    assert(q0[0] == ("name"@, r.name));
    assert(q1[0] == ("path"@, r.path));
    if r.rate != 15 {
        assert(q2[0] == ("rate"@, text::dec(r.rate as nat)));
        assert(q3.len() == 0);
        assert(reader::sample_pairs(r.name, Some(r.path), r.rate, q3) == done);
    } else {
        assert(q2.len() == 0);
    }
    assert(reader::sample_pairs(r.name, Some(r.path), 15, q2) == done);
    assert(reader::sample_pairs(r.name, None, 15, q1) == done);
}

proof fn lemma_sample_line(a: ReaderView, i: nat, r: DpcmView)
    requires
        storable_sample(r),
        i < 64,
        a.song.samples.len() == i,
        a.section == Section::Nothing,
    ensures
        leads(
            a,
            seq![writer::sample_text(i, r)],
            ReaderView { song: SongView { samples: a.song.samples.push(r), ..a.song }, ..a },
        ),
{
    lemma_sample_keys();
    lemma_hex_word(i, usize::MAX as nat);
    let song = SongView { samples: a.song.samples.push(r), ..a.song };
    assert(reader::grown(a.song.samples, i, song::blank_sample()).update(i as int, r)
        =~= a.song.samples.push(r));
    let ps = sample_written(r);
    lemma_dec_value(r.rate as nat, 255);
    text::lemma_dec(r.rate as nat, 255);
    assert(text::is_alnum(text::dec(r.rate as nat)[0]));
    assert(layout::sound_pairs(ps));
    layout::lemma_pair_line(ps, 2);
    layout::lemma_indexed_pairs("dpcm"@, text::hex2(i), ps, 2);
    let args = text::hex2(i) + writer::sp(2) + layout::pair_line(ps, 2);
    lemma_sample_text(i, r);
    lemma_sample_pairs("sample"@ + text::hex2(i), r);
    assert(reader::sample_line(a.song, args) == Ok::<SongView, Fault>(song));
    lemma_sample_directive(a, args, song);
    lemma_directive_line(
        a,
        writer::sample_text(i, r),
        "dpcm"@,
        args,
        ReaderView { song, ..a },
    );
}

proof fn lemma_sample_lines(a: ReaderView, rs: Seq<DpcmView>, k: nat)
    requires
        k <= rs.len() <= 64,
        forall|i: int| 0 <= i < rs.len() ==> storable_sample(#[trigger] rs[i]),
        a.song.samples.len() == 0,
        a.section == Section::Nothing,
    ensures
        leads(
            a,
            writer::sample_lines(rs, k),
            ReaderView { song: SongView { samples: rs.take(k as int), ..a.song }, ..a },
        ),
    decreases k,
{
    if k == 0 {
        assert(rs.take(0) =~= a.song.samples);
        lemma_leads_none(a);
    } else {
        lemma_sample_lines(a, rs, (k - 1) as nat);
        let mid = ReaderView {
            song: SongView { samples: rs.take(k - 1), ..a.song },
            ..a
        };
        lemma_sample_line(mid, (k - 1) as nat, rs[k - 1]);
        let end = ReaderView { song: SongView { samples: rs.take(k as int), ..a.song }, ..a };
        assert(rs.take(k - 1).push(rs[k - 1]) =~= rs.take(k as int));
        let line = writer::sample_text((k - 1) as nat, rs[k - 1]);
        lemma_leads_add(a, writer::sample_lines(rs, (k - 1) as nat), mid, seq![line], end);
        assert(writer::sample_lines(rs, k) =~= writer::sample_lines(rs, (k - 1) as nat) + seq![
            line,
        ]);
    }
}


// ---------------------------------------------------------------- @phrase and its rows

proof fn lemma_phrase_line(a: ReaderView, i: nat)
    requires
        a.song.phrases.len() == i,
        i <= usize::MAX,
    ensures
        leads(
            a,
            seq![writer::index_line("@phrase"@, i)],
            ReaderView {
                song: SongView { phrases: a.song.phrases.push(song::empty_grid()), ..a.song },
                section: Section::Phrase(i as usize),
                ..a
            },
        ),
{
    reveal_strlit("@phrase");
    reveal_strlit("phrase");
    reveal_strlit("song");
    assert("@phrase"@ =~= seq!['@'] + "phrase"@);
    lemma_hex_word(i, usize::MAX as nat);
    let rest = seq![(text::hex2(i), 0nat)];
    assert(layout::spaced(rest));
    layout::lemma_laid_directive("phrase"@, 1, rest);
    assert(seq![(seq!['@'] + "phrase"@, 1nat)] + rest =~= seq![
        ("@phrase"@, 1nat),
        (text::hex2(i), 0nat),
    ]);
    assert(layout::firsts(rest)[0] == text::hex2(i));
    assert(reader::grown(a.song.phrases, i, song::empty_grid()) =~= a.song.phrases.push(
        song::empty_grid(),
    ));
    lemma_directive_line(
        a,
        writer::index_line("@phrase"@, i),
        "phrase"@,
        writer::laid(rest),
        ReaderView {
            song: SongView { phrases: a.song.phrases.push(song::empty_grid()), ..a.song },
            section: Section::Phrase(i as usize),
            ..a
        },
    );
}

/// A line that is all comment changes nothing.
proof fn lemma_comment_line(a: ReaderView, line: Seq<char>)
    requires
        layout::one_line(line),
        text::trim(text::uncomment(line)).len() == 0,
    ensures
        leads(a, seq![line], a),
{
    assert forall|n: nat| #[trigger]
        reader::line_step(a, n, line) == Ok::<ReaderView, Fault>(a) by {}
    lemma_leads_line(a, line, a);
}

proof fn lemma_heads_line(a: ReaderView)
    ensures
        leads(a, seq![writer::column_heads()], a),
        leads(a, seq!["# viper song file"@], a),
{
    reveal_strlit("  # step   PU1             PU2             TRI             NOI             DPCM");
    reveal_strlit("# viper song file");
    let h = writer::column_heads();
    let u = seq![' ', ' '];
    assert(h[0] == ' ' && h[1] == ' ' && h[2] == '#');
    assert(h.skip(1).skip(1)[0] == '#');
    reveal_with_fuel(text::uncomment_from, 4);
    assert(text::uncomment(h) =~= u);
    text::lemma_ink_index_is(u, 2);
    assert(text::trim_start(u) =~= Seq::<char>::empty());
    lemma_comment_line(a, h);
    let v = "# viper song file"@;
    assert(v[0] == '#');
    assert(text::uncomment(v) =~= Seq::<char>::empty());
    text::lemma_trim_tight(Seq::<char>::empty());
    lemma_comment_line(a, v);
}

/// A grid whose first `k` rows have been read.
pub open spec fn partial(g: Seq<Seq<Cell>>, k: int) -> Seq<Seq<Cell>> {
    Seq::new(
        STEPS_PER_PHRASE as nat,
        |r: int|
            if r < k {
                g[r]
            } else {
                song::empty_grid()[r]
            },
    )
}

proof fn lemma_put_row(g: Seq<Seq<Cell>>, k: int)
    requires
        storable_grid(g),
        0 <= k < STEPS_PER_PHRASE,
    ensures
        ({
            let p = partial(g, k);
            let p0 = song::put_cell(p, k, 0, g[k][0]);
            let p1 = song::put_cell(p0, k, 1, g[k][1]);
            let p2 = song::put_cell(p1, k, 2, g[k][2]);
            let p3 = song::put_cell(p2, k, 3, g[k][3]);
            let p4 = song::put_cell(p3, k, 4, g[k][4]);
            p4 == partial(g, k + 1)
        }),
{
    let p = partial(g, k);
    let p0 = song::put_cell(p, k, 0, g[k][0]);
    let p1 = song::put_cell(p0, k, 1, g[k][1]);
    let p2 = song::put_cell(p1, k, 2, g[k][2]);
    let p3 = song::put_cell(p2, k, 3, g[k][3]);
    let p4 = song::put_cell(p3, k, 4, g[k][4]);
    assert(g[k].len() == CHANNELS);
    assert(p[k].len() == CHANNELS);
    assert(p4[k] =~= g[k]);
    assert(p4 =~= partial(g, k + 1));
}

proof fn lemma_row_cells(g: Seq<Seq<Cell>>, k: int, ws: Seq<Seq<char>>)
    requires
        storable_grid(g),
        0 <= k < STEPS_PER_PHRASE,
        ws.len() == 6,
        ws[1] == vip::cell_text(g[k][0]),
        ws[2] == vip::cell_text(g[k][1]),
        ws[3] == vip::cell_text(g[k][2]),
        ws[4] == vip::cell_text(g[k][3]),
        ws[5] == vip::cell_text(g[k][4]),
    ensures
        reader::row_cells(partial(g, k), k, ws, 0) == Ok::<Seq<Seq<Cell>>, Fault>(
            partial(g, k + 1),
        ),
{
    vip::law_cell_round_trip(g[k][0]);
    vip::law_cell_round_trip(g[k][1]);
    vip::law_cell_round_trip(g[k][2]);
    vip::law_cell_round_trip(g[k][3]);
    vip::law_cell_round_trip(g[k][4]);
    lemma_put_row(g, k);
    let p = partial(g, k);
    let p0 = song::put_cell(p, k, 0, g[k][0]);
    let p1 = song::put_cell(p0, k, 1, g[k][1]);
    let p2 = song::put_cell(p1, k, 2, g[k][2]);
    let p3 = song::put_cell(p2, k, 3, g[k][3]);
    let p4 = song::put_cell(p3, k, 4, g[k][4]);
    assert(reader::row_cells(p4, k, ws, 5) == Ok::<Seq<Seq<Cell>>, Fault>(p4));
    assert(reader::row_cells(p3, k, ws, 4) == Ok::<Seq<Seq<Cell>>, Fault>(p4));
    assert(reader::row_cells(p2, k, ws, 3) == Ok::<Seq<Seq<Cell>>, Fault>(p4));
    assert(reader::row_cells(p1, k, ws, 2) == Ok::<Seq<Seq<Cell>>, Fault>(p4));
    assert(reader::row_cells(p0, k, ws, 1) == Ok::<Seq<Seq<Cell>>, Fault>(p4));
}

/// The reader inside phrase `i`, with its first `k` rows read.
pub open spec fn in_phrase(
    a: ReaderView,
    i: nat,
    before: Seq<Seq<Seq<Cell>>>,
    g: Seq<Seq<Cell>>,
    k: int,
) -> ReaderView {
    ReaderView {
        song: SongView { phrases: before.push(partial(g, k)), ..a.song },
        section: Section::Phrase(i as usize),
        ..a
    }
}

proof fn lemma_cell_quiet(c: Cell)
    requires
        vip::writable_cell(c),
    ensures
        layout::is_quiet(vip::cell_text(c)),
{
    vip::law_cell_round_trip(c);
}

/// A row's words with room between them.
proof fn lemma_row_spaced(h: Seq<char>, cs: Seq<Seq<char>>, gaps: Seq<nat>)
    requires
        layout::is_quiet(h),
        cs.len() == CHANNELS,
        gaps.len() == CHANNELS,
        forall|i: int| 0 <= i < CHANNELS ==> layout::is_quiet(#[trigger] cs[i]),
        forall|i: int| 0 <= i < CHANNELS - 1 ==> #[trigger] gaps[i] >= 1,
    ensures
        layout::spaced(seq![(h, 7nat)] + Seq::new(CHANNELS as nat, |i: int| (cs[i], gaps[i]))),
{
    let ts = seq![(h, 7nat)] + Seq::new(CHANNELS as nat, |i: int| (cs[i], gaps[i]));
    assert forall|i: int| 0 <= i < ts.len() implies layout::is_quiet(#[trigger] ts[i].0) by {
        if i > 0 {
            assert(layout::is_quiet(cs[i - 1]));
        }
    }
    assert forall|i: int| 0 <= i < ts.len() - 1 implies #[trigger] ts[i].1 >= 1 by {
        if i > 0 {
            assert(gaps[i - 1] >= 1);
        }
    }
}

/// What the reader makes of a row.
proof fn lemma_row_words(k: nat, row: Seq<Cell>)
    requires
        k < STEPS_PER_PHRASE,
        row.len() == CHANNELS,
        vip::writable_cell(row[0]),
        vip::writable_cell(row[1]),
        vip::writable_cell(row[2]),
        vip::writable_cell(row[3]),
        vip::writable_cell(row[4]),
    ensures
        ({
            let raw = writer::row_text(k, row);
            let line = text::trim(text::uncomment(raw));
            &&& layout::one_line(raw)
            &&& line.len() > 0
            &&& line[0] != '@'
            &&& text::words(line) == seq![
                text::hex2(k),
                vip::cell_text(row[0]),
                vip::cell_text(row[1]),
                vip::cell_text(row[2]),
                vip::cell_text(row[3]),
                vip::cell_text(row[4]),
            ]
        }),
{
    let ts = seq![
        (text::hex2(k), 7nat),
        writer::column(row[0], 2),
        writer::column(row[1], 2),
        writer::column(row[2], 2),
        writer::column(row[3], 2),
        writer::column(row[4], 0),
    ];
    lemma_hex_word(k, usize::MAX as nat);
    text::lemma_hex2(k, usize::MAX as nat);
    let cs = Seq::new(CHANNELS as nat, |i: int| vip::cell_text(row[i]));
    let gaps = Seq::new(
        CHANNELS as nat,
        |i: int|
            writer::column(
                row[i],
                if i < 4 {
                    2
                } else {
                    0
                },
            ).1,
    );
    assert forall|i: int| 0 <= i < CHANNELS implies layout::is_quiet(#[trigger] cs[i]) by {
        assert(i == 0 || i == 1 || i == 2 || i == 3 || i == 4);
        lemma_cell_quiet(row[i]);
    }
    lemma_row_spaced(text::hex2(k), cs, gaps);
    assert(ts =~= seq![(text::hex2(k), 7nat)] + Seq::new(
        CHANNELS as nat,
        |i: int| (cs[i], gaps[i]),
    ));
    layout::lemma_indented(2, ts);
    assert forall|j: int| 0 <= j < ts.len() implies layout::is_word(#[trigger] ts[j].0) by {
        assert(layout::is_quiet(ts[j].0));
    }
    layout::lemma_laid_one_line(2, ts);
    assert(text::is_alnum(text::hex2(k)[0]));
    assert(layout::firsts(ts) =~= seq![
        text::hex2(k),
        vip::cell_text(row[0]),
        vip::cell_text(row[1]),
        vip::cell_text(row[2]),
        vip::cell_text(row[3]),
        vip::cell_text(row[4]),
    ]);
}

proof fn lemma_row_line(
    a: ReaderView,
    i: nat,
    before: Seq<Seq<Seq<Cell>>>,
    g: Seq<Seq<Cell>>,
    k: int,
)
    requires
        storable_grid(g),
        0 <= k < STEPS_PER_PHRASE,
        before.len() == i,
        i <= usize::MAX,
    ensures
        leads(
            in_phrase(a, i, before, g, k),
            seq![writer::row_text(k as nat, g[k])],
            in_phrase(a, i, before, g, k + 1),
        ),
{
    let row = g[k];
    assert(vip::writable_cell(g[k][0]));
    assert(vip::writable_cell(g[k][1]));
    assert(vip::writable_cell(g[k][2]));
    assert(vip::writable_cell(g[k][3]));
    assert(vip::writable_cell(g[k][4]));
    lemma_row_words(k as nat, row);
    lemma_hex_word(k as nat, usize::MAX as nat);
    let raw = writer::row_text(k as nat, row);
    let line = text::trim(text::uncomment(raw));
    let ws = text::words(line);
    lemma_row_cells(g, k, ws);
    let from = in_phrase(a, i, before, g, k);
    let to = in_phrase(a, i, before, g, k + 1);
    assert(from.song.phrases[i as int] == partial(g, k));
    assert(from.song.phrases.update(i as int, partial(g, k + 1)) =~= to.song.phrases);
    assert(reader::row_line(partial(g, k), line) == Ok::<Seq<Seq<Cell>>, Fault>(
        partial(g, k + 1),
    ));
    assert(reader::data_row(from, line) == Ok::<ReaderView, Fault>(to));
    assert forall|n: nat| #[trigger]
        reader::line_step(from, n, raw) == Ok::<ReaderView, Fault>(to) by {}
    lemma_leads_line(from, raw, to);
}

proof fn lemma_row_lines(
    a: ReaderView,
    i: nat,
    before: Seq<Seq<Seq<Cell>>>,
    g: Seq<Seq<Cell>>,
    k: nat,
)
    requires
        storable_grid(g),
        k <= STEPS_PER_PHRASE,
        before.len() == i,
        i <= usize::MAX,
    ensures
        leads(
            in_phrase(a, i, before, g, 0),
            writer::row_lines(g, k),
            in_phrase(a, i, before, g, k as int),
        ),
    decreases k,
{
    if k == 0 {
        lemma_leads_none(in_phrase(a, i, before, g, 0));
    } else {
        lemma_row_lines(a, i, before, g, (k - 1) as nat);
        lemma_row_line(a, i, before, g, k - 1);
        let line = writer::row_text((k - 1) as nat, g[k - 1]);
        lemma_leads_add(
            in_phrase(a, i, before, g, 0),
            writer::row_lines(g, (k - 1) as nat),
            in_phrase(a, i, before, g, k - 1),
            seq![line],
            in_phrase(a, i, before, g, k as int),
        );
        assert(writer::row_lines(g, k) =~= writer::row_lines(g, (k - 1) as nat) + seq![line]);
    }
}

/// The reader after the first `k` phrases.
pub open spec fn after_phrases(a: ReaderView, ps: Seq<Seq<Seq<Cell>>>, k: nat) -> ReaderView {
    ReaderView {
        song: SongView { phrases: ps.take(k as int), ..a.song },
        section: if k == 0 {
            a.section
        } else {
            Section::Phrase((k - 1) as usize)
        },
        ..a
    }
}

proof fn lemma_phrase_block(a: ReaderView, ps: Seq<Seq<Seq<Cell>>>, k: nat)
    requires
        k < ps.len() <= usize::MAX,
        storable_grid(ps[k as int]),
    ensures
        leads(
            after_phrases(a, ps, k),
            writer::phrase_block(k, ps[k as int]),
            after_phrases(a, ps, k + 1),
        ),
{
    let g = ps[k as int];
    let before = ps.take(k as int);
    let from = after_phrases(a, ps, k);
    let to = after_phrases(a, ps, k + 1);
    lemma_phrase_line(from, k);
    let p0 = in_phrase(a, k, before, g, 0);
    assert(partial(g, 0) =~= song::empty_grid());
    assert(partial(g, 16) =~= g);
    assert(before.push(g) =~= ps.take((k + 1) as int));
    lemma_heads_line(p0);
    lemma_row_lines(a, k, before, g, STEPS_PER_PHRASE as nat);
    let p16 = in_phrase(a, k, before, g, 16);
    assert(p16 == to);
    lemma_blank_line(p16);
    let l1 = seq![writer::index_line("@phrase"@, k)];
    let l2 = seq![writer::column_heads()];
    let rows = writer::row_lines(g, STEPS_PER_PHRASE as nat);
    lemma_leads_add(from, l1, p0, l2, p0);
    lemma_leads_add(from, l1 + l2, p0, rows, p16);
    lemma_leads_add(from, l1 + l2 + rows, p16, seq![Seq::empty()], p16);
    assert(l1 + l2 =~= seq![writer::index_line("@phrase"@, k), writer::column_heads()]);
}

proof fn lemma_phrase_lines(a: ReaderView, ps: Seq<Seq<Seq<Cell>>>, k: nat)
    requires
        k <= ps.len() <= usize::MAX,
        forall|i: int| 0 <= i < ps.len() ==> storable_grid(#[trigger] ps[i]),
        a.song.phrases.len() == 0,
    ensures
        leads(a, writer::phrase_lines(ps, k), after_phrases(a, ps, k)),
    decreases k,
{
    if k == 0 {
        assert(ps.take(0) =~= a.song.phrases);
        lemma_leads_none(a);
    } else {
        lemma_phrase_lines(a, ps, (k - 1) as nat);
        lemma_phrase_block(a, ps, (k - 1) as nat);
        lemma_leads_add(
            a,
            writer::phrase_lines(ps, (k - 1) as nat),
            after_phrases(a, ps, (k - 1) as nat),
            writer::phrase_block((k - 1) as nat, ps[k - 1]),
            after_phrases(a, ps, k),
        );
    }
}


// ---------------------------------------------------------------- @chain and @arrangement

proof fn lemma_byte_words(acc: Seq<u8>, v: Seq<u8>)
    ensures
        reader::byte_words(acc, writer::byte_items(v)) == Some(acc + v),
    decreases v.len(),
{
    let items = writer::byte_items(v);
    if v.len() == 0 {
        assert(acc + v =~= acc);
    } else {
        text::lemma_hex2(v[0] as nat, 255);
        assert(items[0] == text::hex2(v[0] as nat));
        assert(items.skip(1) =~= writer::byte_items(v.skip(1)));
        lemma_byte_words(acc.push(v[0]), v.skip(1));
        assert(acc.push(v[0]) + v.skip(1) =~= acc + v);
    }
}

/// What the reader makes of a row of bytes.
proof fn lemma_byte_row_words(v: Seq<u8>)
    requires
        v.len() > 0,
    ensures
        ({
            let raw = writer::sp(2) + writer::joined(writer::byte_items(v), ' ');
            let line = text::trim(text::uncomment(raw));
            &&& layout::one_line(raw)
            &&& line.len() > 0
            &&& line[0] != '@'
            &&& text::words(line) == writer::byte_items(v)
        }),
{
    let items = writer::byte_items(v);
    assert forall|i: int| 0 <= i < items.len() implies layout::is_quiet(#[trigger] items[i]) by {
        lemma_hex_word(v[i] as nat, 255);
    }
    layout::lemma_list_line(items);
    text::lemma_hex2(v[0] as nat, 255);
    assert(items[0] == text::hex2(v[0] as nat));
    assert(text::is_alnum(items[0][0]));
}

proof fn lemma_chain_row(a: ReaderView, c: usize, v: Seq<u8>)
    requires
        a.section == Section::Chain(c),
        c < a.song.chains.len(),
        a.song.chains[c as int].phrases.len() == 0,
    ensures
        leads(
            a,
            writer::byte_row(v),
            ReaderView {
                song: SongView {
                    chains: a.song.chains.update(
                        c as int,
                        ChainView { phrases: v, ..a.song.chains[c as int] },
                    ),
                    ..a.song
                },
                ..a
            },
        ),
{
    let to = ReaderView {
        song: SongView {
            chains: a.song.chains.update(
                c as int,
                ChainView { phrases: v, ..a.song.chains[c as int] },
            ),
            ..a.song
        },
        ..a
    };
    if v.len() == 0 {
        assert(v =~= a.song.chains[c as int].phrases);
        assert(to.song.chains =~= a.song.chains);
        lemma_leads_none(a);
    } else {
        let raw = writer::sp(2) + writer::joined(writer::byte_items(v), ' ');
        lemma_byte_row_words(v);
        lemma_byte_words(a.song.chains[c as int].phrases, v);
        assert(a.song.chains[c as int].phrases + v =~= v);
        assert forall|n: nat| #[trigger]
            reader::line_step(a, n, raw) == Ok::<ReaderView, Fault>(to) by {}
        lemma_leads_line(a, raw, to);
    }
}

proof fn lemma_chain_directive(a: ReaderView, args: Seq<char>, i: nat, rest: Seq<char>)
    requires
        a.song.chains.len() == i,
        i <= usize::MAX,
        text::first_word(args) == (text::hex2(i), rest),
    ensures
        forall|n: nat| #[trigger]
            reader::directive(a, n, "chain"@, args) == Ok::<ReaderView, Fault>(
                ReaderView {
                    song: SongView {
                        chains: a.song.chains.push(
                            ChainView {
                                phrases: Seq::empty(),
                                name: reader::chain_name(None, quote::pairs(rest)),
                            },
                        ),
                        ..a.song
                    },
                    section: Section::Chain(i as usize),
                    ..a
                },
            ),
{
    reveal_strlit("chain");
    reveal_strlit("song");
    reveal_strlit("phrase");
    lemma_hex_word(i, usize::MAX as nat);
    let name = reader::chain_name(None, quote::pairs(rest));
    let grown = reader::grown(a.song.chains, i, song::empty_chain());
    let one = ChainView { phrases: Seq::empty(), name };
    assert(grown =~= a.song.chains.push(song::empty_chain()));
    assert(grown[i as int] == song::empty_chain());
    assert(grown.update(i as int, ChainView { name, ..grown[i as int] }) =~= a.song.chains.push(
        one,
    ));
    assert("chain"@.len() == 5 && "song"@.len() == 4 && "phrase"@.len() == 6);
    assert("chain"@ != "song"@);
    assert("chain"@ != "phrase"@);
    let to = ReaderView {
        song: SongView { chains: a.song.chains.push(one), ..a.song },
        section: Section::Chain(i as usize),
        ..a
    };
    assert forall|n: nat| #[trigger]
        reader::directive(a, n, "chain"@, args) == Ok::<ReaderView, Fault>(to) by {
        assert(text::parse_uint(text::hex2(i), 16, usize::MAX as nat) == Some(i));
    }
}

proof fn lemma_chain_head(a: ReaderView, i: nat, name: Option<Seq<char>>)
    requires
        a.song.chains.len() == i,
        i <= usize::MAX,
        match name {
            Some(n) => n.len() > 0,
            None => true,
        },
    ensures
        leads(
            a,
            seq![writer::chain_head(i, name)],
            ReaderView {
                song: SongView {
                    chains: a.song.chains.push(ChainView { phrases: Seq::empty(), name }),
                    ..a.song
                },
                section: Section::Chain(i as usize),
                ..a
            },
        ),
{
    reveal_strlit("@chain");
    reveal_strlit("chain");
    assert("@chain"@ =~= seq!['@'] + "chain"@);
    lemma_hex_word(i, usize::MAX as nat);
    let h = text::hex2(i);
    let raw = writer::chain_head(i, name);
    let to = ReaderView {
        song: SongView {
            chains: a.song.chains.push(ChainView { phrases: Seq::empty(), name }),
            ..a.song
        },
        section: Section::Chain(i as usize),
        ..a
    };
    match name {
        None => {
            let rest = seq![(h, 0nat)];
            assert(layout::spaced(rest));
            layout::lemma_laid_directive("chain"@, 1, rest);
            assert(seq![(seq!['@'] + "chain"@, 1nat)] + rest =~= seq![
                ("@chain"@, 1nat),
                (h, 0nat),
            ]);
            let none = Seq::<(Seq<char>, nat)>::empty();
            assert(rest =~= seq![(h, 0nat)] + none);
            layout::lemma_indexed(h, 0, none);
            assert(writer::laid(none) =~= Seq::<char>::empty());
            text::lemma_trim_tight(Seq::<char>::empty());
            assert(quote::pairs(Seq::<char>::empty()) =~= Seq::<(Seq<char>, Seq<char>)>::empty());
            lemma_chain_directive(a, writer::laid(rest), i, Seq::empty());
            lemma_directive_line(a, raw, "chain"@, writer::laid(rest), to);
        },
        Some(n) => {
            lemma_named_chain(a, i, n);
        },
    }
}

proof fn lemma_named_chain(a: ReaderView, i: nat, n: Seq<char>)
    requires
        a.song.chains.len() == i,
        i <= usize::MAX,
        n.len() > 0,
    ensures
        leads(
            a,
            seq![writer::chain_head(i, Some(n))],
            ReaderView {
                song: SongView {
                    chains: a.song.chains.push(
                        ChainView { phrases: Seq::empty(), name: Some(n) },
                    ),
                    ..a.song
                },
                section: Section::Chain(i as usize),
                ..a
            },
        ),
{
    reveal_strlit("@chain");
    reveal_strlit("chain");
    reveal_strlit("name");
    reveal_strlit("name=");
    assert("@chain"@ =~= seq!['@'] + "chain"@);
    assert("name="@ =~= "name"@ + seq!['=']);
    lemma_hex_word(i, usize::MAX as nat);
    let h = text::hex2(i);
    text::lemma_hex2(i, usize::MAX as nat);
    let ps = seq![("name"@, n)];
    let qs = layout::all_quoted(ps);
    let f = layout::pair_line(qs, 1);
    let raw = writer::chain_head(i, Some(n));
    let args = h + writer::sp(2) + f;
    assert(layout::sound_pairs(qs));
    layout::lemma_pair_line(qs, 1);
    layout::lemma_indexed_pairs("chain"@, h, qs, 1);
    assert(layout::bare_of(qs) =~= ps);
    assert(raw =~= seq!['@'] + "chain"@ + writer::sp(1) + args) by {
        reveal_with_fuel(writer::laid, 4);
        assert(writer::sp(0) =~= Seq::<char>::empty());
    }
    assert(ps.skip(1) =~= Seq::<(Seq<char>, Seq<char>)>::empty());
    assert(ps[0] == ("name"@, n));
    reveal_with_fuel(reader::chain_name, 2);
    assert(reader::chain_name(None, ps) == Some(n));
    lemma_chain_directive(a, args, i, f);
    lemma_directive_line(
        a,
        raw,
        "chain"@,
        args,
        ReaderView {
            song: SongView {
                chains: a.song.chains.push(ChainView { phrases: Seq::empty(), name: Some(n) }),
                ..a.song
            },
            section: Section::Chain(i as usize),
            ..a
        },
    );
}

/// The reader after the first `k` chains.
pub open spec fn after_chains(a: ReaderView, cs: Seq<ChainView>, k: nat) -> ReaderView {
    ReaderView {
        song: SongView { chains: cs.take(k as int), ..a.song },
        section: if k == 0 {
            a.section
        } else {
            Section::Chain((k - 1) as usize)
        },
        ..a
    }
}

proof fn lemma_chain_lines(a: ReaderView, cs: Seq<ChainView>, phrases: nat, k: nat)
    requires
        k <= cs.len() <= usize::MAX,
        forall|i: int| 0 <= i < cs.len() ==> storable_chain(#[trigger] cs[i], phrases),
        a.song.chains.len() == 0,
    ensures
        leads(a, writer::chain_lines(cs, k), after_chains(a, cs, k)),
    decreases k,
{
    if k == 0 {
        assert(cs.take(0) =~= a.song.chains);
        lemma_leads_none(a);
    } else {
        let j = (k - 1) as nat;
        let c = cs[k - 1];
        assert(storable_chain(c, phrases));
        lemma_chain_lines(a, cs, phrases, j);
        let from = after_chains(a, cs, j);
        lemma_chain_head(from, j, c.name);
        let bare = ChainView { phrases: Seq::empty(), name: c.name };
        let mid = ReaderView {
            song: SongView { chains: cs.take(j as int).push(bare), ..a.song },
            section: Section::Chain(j as usize),
            ..a
        };
        lemma_chain_row(mid, j as usize, c.phrases);
        let to = after_chains(a, cs, k);
        assert(cs.take(j as int).push(bare).update(
            j as int,
            ChainView { phrases: c.phrases, ..bare },
        ) =~= cs.take(k as int));
        let head = seq![writer::chain_head(j, c.name)];
        lemma_leads_add(a, writer::chain_lines(cs, j), from, head, mid);
        lemma_leads_add(
            a,
            writer::chain_lines(cs, j) + head,
            mid,
            writer::byte_row(c.phrases),
            to,
        );
        assert(writer::chain_lines(cs, j) + head =~= writer::chain_lines(cs, j).push(
            writer::chain_head(j, c.name),
        ));
    }
}

pub open spec fn with_arrangement(s: SongView, base: SongView) -> SongView {
    SongView {
        chains: s.chains,
        arrangement: s.arrangement,
        arr_loop: s.arr_loop,
        ..base
    }
}

proof fn lemma_arrangement_head(a: ReaderView, at: usize)
    ensures
        leads(
            a,
            seq![writer::arrangement_line(at as nat)],
            ReaderView {
                song: SongView { arr_loop: at, ..a.song },
                section: Section::Arrangement,
                ..a
            },
        ),
{
    reveal_strlit("@arrangement");
    reveal_strlit("arrangement");
    reveal_strlit("song");
    reveal_strlit("phrase");
    reveal_strlit("chain");
    assert("@arrangement"@ =~= seq!['@'] + "arrangement"@);
    let w = "loop="@ + text::hex2(at as nat);
    lemma_loop_word(a.song, at);
    lemma_hex_word(at as nat, usize::MAX as nat);
    let rest = seq![(w, 0nat)];
    assert(layout::spaced(rest));
    layout::lemma_laid_directive("arrangement"@, 2, rest);
    assert(seq![(seq!['@'] + "arrangement"@, 2nat)] + rest =~= seq![
        ("@arrangement"@, 2nat),
        (w, 0nat),
    ]);
    assert(layout::firsts(rest) =~= seq![w]);
    assert(seq![w].skip(1) =~= Seq::<Seq<char>>::empty());
    reveal_with_fuel(reader::arr_words, 2);
    assert(reader::arr_words(a.song.arr_loop, seq![w]) == Some(at));
    lemma_directive_line(
        a,
        writer::arrangement_line(at as nat),
        "arrangement"@,
        writer::laid(rest),
        ReaderView {
            song: SongView { arr_loop: at, ..a.song },
            section: Section::Arrangement,
            ..a
        },
    );
}

proof fn lemma_arrangement_row(a: ReaderView, v: Seq<u8>)
    requires
        a.section == Section::Arrangement,
        a.song.arrangement.len() == 0,
    ensures
        leads(
            a,
            writer::byte_row(v),
            ReaderView { song: SongView { arrangement: v, ..a.song }, ..a },
        ),
{
    let to = ReaderView { song: SongView { arrangement: v, ..a.song }, ..a };
    if v.len() == 0 {
        assert(v =~= a.song.arrangement);
        lemma_leads_none(a);
    } else {
        let raw = writer::sp(2) + writer::joined(writer::byte_items(v), ' ');
        lemma_byte_row_words(v);
        lemma_byte_words(a.song.arrangement, v);
        assert(a.song.arrangement + v =~= v);
        assert forall|n: nat| #[trigger]
            reader::line_step(a, n, raw) == Ok::<ReaderView, Fault>(to) by {}
        lemma_leads_line(a, raw, to);
    }
}

proof fn lemma_arrangement_lines(a: ReaderView, s: SongView) -> (section: Section)
    requires
        storable(s),
        a.song.chains.len() == 0,
        a.song.arrangement.len() == 0,
        a.song.arr_loop == 0,
    ensures
        leads(
            a,
            writer::arrangement_lines(s),
            ReaderView { song: with_arrangement(s, a.song), section, ..a },
        ),
{
    if writer::has_chains(s) {
        let n = s.chains.len();
        lemma_chain_lines(a, s.chains, s.phrases.len(), n);
        let b = after_chains(a, s.chains, n);
        assert(s.chains.take(n as int) =~= s.chains);
        lemma_arrangement_head(b, s.arr_loop);
        let c = ReaderView {
            song: SongView { arr_loop: s.arr_loop, ..b.song },
            section: Section::Arrangement,
            ..b
        };
        lemma_arrangement_row(c, s.arrangement);
        let d = ReaderView {
            song: with_arrangement(s, a.song),
            section: Section::Arrangement,
            ..a
        };
        assert(ReaderView { song: SongView { arrangement: s.arrangement, ..c.song }, ..c } == d);
        lemma_blank_line(d);
        let l1 = writer::chain_lines(s.chains, n);
        let l2 = seq![writer::arrangement_line(s.arr_loop as nat)];
        let l3 = writer::byte_row(s.arrangement);
        lemma_leads_add(a, l1, b, l2, c);
        lemma_leads_add(a, l1 + l2, c, l3, d);
        lemma_leads_add(a, l1 + l2 + l3, d, seq![Seq::empty()], d);
        Section::Arrangement
    } else {
        assert(s.chains =~= a.song.chains);
        assert(s.arrangement =~= a.song.arrangement);
        lemma_leads_none(a);
        a.section
    }
}


// ---------------------------------------------------------------- @groove and @length

proof fn lemma_groove_words(g: Seq<i16>, cur: Seq<i16>, k: nat)
    requires
        g.len() == 16,
        cur.len() == 16,
        k <= 16,
        forall|i: int| 0 <= i < k ==> cur[i] == g[i],
    ensures
        reader::groove_words(cur, k as usize, writer::groove_items(g).skip(k as int)) == Ok::<
            (Seq<i16>, usize),
            Fault,
        >((g, 16)),
    decreases 16 - k,
{
    let ws = writer::groove_items(g).skip(k as int);
    if k == 16 {
        assert(ws.len() == 0);
        assert(cur =~= g);
    } else {
        text::lemma_signed_dec(g[k as int] as int, 32768, 32767);
        assert(ws[0] == text::signed_dec(g[k as int] as int));
        assert(ws.skip(1) =~= writer::groove_items(g).skip((k + 1) as int));
        lemma_groove_words(g, cur.update(k as int, g[k as int]), k + 1);
    }
}

proof fn lemma_groove_head(a: ReaderView)
    ensures
        leads(
            a,
            seq!["@groove"@],
            ReaderView { section: Section::Groove, groove_pos: 0, ..a },
        ),
{
    reveal_strlit("@groove");
    reveal_strlit("groove");
    reveal_strlit("song");
    reveal_strlit("phrase");
    reveal_strlit("chain");
    reveal_strlit("arrangement");
    reveal_strlit("arr");
    let none = Seq::<char>::empty();
    let raw = "@groove"@;
    assert(raw =~= seq!['@'] + "groove"@ + writer::sp(0) + none);
    assert(layout::calm(raw, false));
    layout::lemma_directive("groove"@, 0, none);
    assert("groove"@[0] == 'g' && "phrase"@[0] == 'p');
    assert("groove"@ != "phrase"@);
    let to = ReaderView { section: Section::Groove, groove_pos: 0, ..a };
    assert(text::words(none) =~= Seq::<Seq<char>>::empty());
    lemma_directive_line(a, raw, "groove"@, none, to);
}

proof fn lemma_groove_row(a: ReaderView, g: Seq<i16>)
    requires
        g.len() == 16,
        a.song.groove.len() == 16,
        a.section == Section::Groove,
        a.groove_pos == 0,
    ensures
        leads(
            a,
            seq![writer::sp(2) + writer::joined(writer::groove_items(g), ' ')],
            ReaderView { song: SongView { groove: g, ..a.song }, groove_pos: 16, ..a },
        ),
{
    let items = writer::groove_items(g);
    assert forall|i: int| 0 <= i < items.len() implies layout::is_quiet(#[trigger] items[i]) by {
        text::lemma_signed_dec(g[i] as int, 32768, 32767);
        let w = text::signed_dec(g[i] as int);
        assert(items[i] == w);
        assert(text::is_alnum(w[0]) || w[0] == '-');
        assert forall|j: int| 0 <= j < w.len() implies !text::is_ws(#[trigger] w[j]) by {
            assert(text::is_alnum(w[j]) || w[j] == '-');
        }
    }
    layout::lemma_list_line(items);
    text::lemma_signed_dec(g[0] as int, 32768, 32767);
    assert(items[0] == text::signed_dec(g[0] as int));
    assert(text::is_alnum(items[0][0]) || items[0][0] == '-');
    lemma_groove_words(g, a.song.groove, 0);
    assert(items.skip(0) =~= items);
    let raw = writer::sp(2) + writer::joined(items, ' ');
    let to = ReaderView { song: SongView { groove: g, ..a.song }, groove_pos: 16, ..a };
    assert forall|n: nat| #[trigger]
        reader::line_step(a, n, raw) == Ok::<ReaderView, Fault>(to) by {}
    lemma_leads_line(a, raw, to);
}

proof fn lemma_groove_lines(a: ReaderView, s: SongView) -> (r: (Section, usize))
    requires
        s.groove.len() == 16,
        a.song.groove == Seq::new(16, |i: int| 0i16),
    ensures
        leads(
            a,
            writer::groove_lines(s.groove),
            ReaderView {
                song: SongView { groove: s.groove, ..a.song },
                section: r.0,
                groove_pos: r.1,
                ..a
            },
        ),
{
    if writer::has_groove(s.groove) {
        lemma_groove_head(a);
        let b = ReaderView { section: Section::Groove, groove_pos: 0, ..a };
        lemma_groove_row(b, s.groove);
        let c = ReaderView { song: SongView { groove: s.groove, ..b.song }, groove_pos: 16, ..b };
        lemma_blank_line(c);
        let l2 = seq![writer::sp(2) + writer::joined(writer::groove_items(s.groove), ' ')];
        lemma_leads_add(a, seq!["@groove"@], b, l2, c);
        lemma_leads_add(a, seq!["@groove"@] + l2, c, seq![Seq::empty()], c);
        assert(seq!["@groove"@] + l2 + seq![Seq::empty()] =~= writer::groove_lines(s.groove));
        (Section::Groove, 16)
    } else {
        assert forall|i: int| 0 <= i < 16 implies #[trigger] s.groove[i] == 0 by {}
        assert(s.groove =~= a.song.groove);
        lemma_leads_none(a);
        (a.section, a.groove_pos)
    }
}

proof fn lemma_length_keys()
    ensures
        "@length"@ == seq!['@'] + "length"@,
        "pu1="@ == "pu1"@ + seq!['='],
        "pu2="@ == "pu2"@ + seq!['='],
        "tri="@ == "tri"@ + seq!['='],
        "noi="@ == "noi"@ + seq!['='],
        "dpcm="@ == "dpcm"@ + seq!['='],
        layout::is_word("length"@),
        layout::is_key("pu1"@) && "pu1"@[0] != '#',
        layout::is_key("pu2"@) && "pu2"@[0] != '#',
        layout::is_key("tri"@) && "tri"@[0] != '#',
        layout::is_key("noi"@) && "noi"@[0] != '#',
        layout::is_key("dpcm"@) && "dpcm"@[0] != '#',
        reader::length_channel("pu1"@) == Some(0int),
        reader::length_channel("pu2"@) == Some(1int),
        reader::length_channel("tri"@) == Some(2int),
        reader::length_channel("noi"@) == Some(3int),
        reader::length_channel("dpcm"@) == Some(4int),
{
    reveal_strlit("@length");
    reveal_strlit("length");
    reveal_strlit("pu1=");
    reveal_strlit("pu2=");
    reveal_strlit("tri=");
    reveal_strlit("noi=");
    reveal_strlit("dpcm=");
    reveal_strlit("pu1");
    reveal_strlit("pu2");
    reveal_strlit("tri");
    reveal_strlit("noi");
    reveal_strlit("dpcm");
    assert("@length"@ =~= seq!['@'] + "length"@);
    assert("pu1="@ =~= "pu1"@ + seq!['=']);
    assert("pu2="@ =~= "pu2"@ + seq!['=']);
    assert("tri="@ =~= "tri"@ + seq!['=']);
    assert("noi="@ =~= "noi"@ + seq!['=']);
    assert("dpcm="@ =~= "dpcm"@ + seq!['=']);
    assert("pu1"@[2] == '1' && "pu2"@[2] == '2' && "tri"@[0] == 't' && "noi"@[0] == 'n'
        && "pu1"@[0] == 'p' && "pu2"@[0] == 'p');
}

proof fn lemma_length_word(k: Seq<char>, ch: int, len: Seq<u8>, n: u8)
    requires
        layout::is_key(k),
        k[0] != '#',
        reader::length_channel(k) == Some(ch),
        1 <= n <= 16,
    ensures
        reader::length_word(len, k + seq!['='] + text::dec(n as nat)) == Ok::<Seq<u8>, Fault>(
            len.update(ch, n),
        ),
        layout::is_quiet(k + seq!['='] + text::dec(n as nat)),
{
    lemma_dec_value(n as nat, 255);
    lemma_cut(k, text::dec(n as nat));
    lemma_kv_word(k, text::dec(n as nat));
}

proof fn lemma_length_directive(a: ReaderView, args: Seq<char>, l: Seq<u8>)
    requires
        reader::length_words(a.song.channel_length, text::words(args)) == Ok::<Seq<u8>, Fault>(l),
    ensures
        forall|n: nat| #[trigger]
            reader::directive(a, n, "length"@, args) == Ok::<ReaderView, Fault>(
                ReaderView {
                    song: SongView { channel_length: l, ..a.song },
                    section: Section::Nothing,
                    ..a
                },
            ),
{
    reveal_strlit("length");
    reveal_strlit("song");
    reveal_strlit("phrase");
    reveal_strlit("chain");
    reveal_strlit("arrangement");
    reveal_strlit("arr");
    reveal_strlit("groove");
    assert("length"@[0] == 'l' && "phrase"@[0] == 'p' && "groove"@[0] == 'g');
    assert("length"@ != "phrase"@ && "length"@ != "groove"@);
}

proof fn lemma_length_fold(l0: Seq<u8>, l: Seq<u8>, ws: Seq<Seq<char>>)
    requires
        l0.len() == CHANNELS,
        l.len() == CHANNELS,
        ws.len() == 5,
        forall|k: int, cur: Seq<u8>|
            0 <= k < 5 ==> #[trigger] reader::length_word(cur, ws[k]) == Ok::<Seq<u8>, Fault>(
                cur.update(k, l[k]),
            ),
    ensures
        reader::length_words(l0, ws) == Ok::<Seq<u8>, Fault>(l),
{
    let l1 = l0.update(0, l[0]);
    let l2 = l1.update(1, l[1]);
    let l3 = l2.update(2, l[2]);
    let l4 = l3.update(3, l[3]);
    let l5 = l4.update(4, l[4]);
    assert(l5 =~= l);
    assert(reader::length_word(l0, ws[0]) == Ok::<Seq<u8>, Fault>(l1));
    assert(reader::length_word(l1, ws[1]) == Ok::<Seq<u8>, Fault>(l2));
    assert(reader::length_word(l2, ws[2]) == Ok::<Seq<u8>, Fault>(l3));
    assert(reader::length_word(l3, ws[3]) == Ok::<Seq<u8>, Fault>(l4));
    assert(reader::length_word(l4, ws[4]) == Ok::<Seq<u8>, Fault>(l5));
    let w1 = ws.skip(1);
    let w2 = w1.skip(1);
    let w3 = w2.skip(1);
    let w4 = w3.skip(1);
    let w5 = w4.skip(1);
    assert(w5.len() == 0);
    assert(reader::length_words(l5, w5) == Ok::<Seq<u8>, Fault>(l5));
    assert(w4[0] == ws[4]);
    assert(reader::length_words(l4, w4) == Ok::<Seq<u8>, Fault>(l5));
    assert(w3[0] == ws[3]);
    assert(reader::length_words(l3, w3) == Ok::<Seq<u8>, Fault>(l5));
    assert(w2[0] == ws[2]);
    assert(reader::length_words(l2, w2) == Ok::<Seq<u8>, Fault>(l5));
    assert(w1[0] == ws[1]);
    assert(reader::length_words(l1, w1) == Ok::<Seq<u8>, Fault>(l5));
}

proof fn lemma_length_lines(a: ReaderView, s: SongView) -> (section: Section)
    requires
        s.channel_length.len() == CHANNELS,
        forall|i: int| 0 <= i < CHANNELS ==> 1 <= #[trigger] s.channel_length[i] <= 16,
        a.song.channel_length == Seq::new(CHANNELS as nat, |i: int| 16u8),
    ensures
        leads(
            a,
            writer::length_lines(s.channel_length),
            ReaderView {
                song: SongView { channel_length: s.channel_length, ..a.song },
                section,
                ..a
            },
        ),
{
    let l = s.channel_length;
    if writer::full_length(l) {
        lemma_leads_none(a);
        a.section
    } else {
        lemma_length_keys();
        let w0 = "pu1="@ + text::dec(l[0] as nat);
        let w1 = "pu2="@ + text::dec(l[1] as nat);
        let w2 = "tri="@ + text::dec(l[2] as nat);
        let w3 = "noi="@ + text::dec(l[3] as nat);
        let w4 = "dpcm="@ + text::dec(l[4] as nat);
        let rest = seq![(w0, 2nat), (w1, 2nat), (w2, 2nat), (w3, 2nat), (w4, 0nat)];
        let ws = layout::firsts(rest);
        lemma_length_word("pu1"@, 0, l, l[0]);
        lemma_length_word("pu2"@, 1, l, l[1]);
        lemma_length_word("tri"@, 2, l, l[2]);
        lemma_length_word("noi"@, 3, l, l[3]);
        lemma_length_word("dpcm"@, 4, l, l[4]);
        assert(layout::spaced(rest));
        assert(ws[0] == w0 && ws[1] == w1 && ws[2] == w2 && ws[3] == w3 && ws[4] == w4);
        assert forall|k: int, cur: Seq<u8>| 0 <= k < 5 implies #[trigger] reader::length_word(
            cur,
            ws[k],
        ) == Ok::<Seq<u8>, Fault>(cur.update(k, l[k])) by {
            if k == 0 {
                lemma_length_word("pu1"@, 0, cur, l[0]);
            } else if k == 1 {
                lemma_length_word("pu2"@, 1, cur, l[1]);
            } else if k == 2 {
                lemma_length_word("tri"@, 2, cur, l[2]);
            } else if k == 3 {
                lemma_length_word("noi"@, 3, cur, l[3]);
            } else {
                lemma_length_word("dpcm"@, 4, cur, l[4]);
            }
        }
        lemma_length_fold(a.song.channel_length, l, ws);
        layout::lemma_laid_directive("length"@, 2, rest);
        assert(seq![(seq!['@'] + "length"@, 2nat)] + rest =~= seq![
            ("@length"@, 2nat),
            (w0, 2nat),
            (w1, 2nat),
            (w2, 2nat),
            (w3, 2nat),
            (w4, 0nat),
        ]);
        let b = ReaderView {
            song: SongView { channel_length: l, ..a.song },
            section: Section::Nothing,
            ..a
        };
        lemma_length_directive(a, writer::laid(rest), l);
        lemma_directive_line(a, writer::length_line(l), "length"@, writer::laid(rest), b);
        lemma_blank_line(b);
        lemma_leads_add(a, seq![writer::length_line(l)], b, seq![Seq::empty()], b);
        assert(seq![writer::length_line(l)] + seq![Seq::empty()] =~= writer::length_lines(l));
        Section::Nothing
    }
}

// ---------------------------------------------------------------- @instr

/// Whether a key is none of an instrument's long field names.
spec fn is_no_long_name(k: Seq<char>) -> bool {
    k != "attack"@ && k != "decay"@ && k != "sustain"@ && k != "release"@
}

proof fn lemma_instr_keys()
    ensures
        "@instr"@ == seq!['@'] + "instr"@,
        "a="@ == "a"@ + seq!['='],
        "d="@ == "d"@ + seq!['='],
        "s="@ == "s"@ + seq!['='],
        "r="@ == "r"@ + seq!['='],
        "duty="@ == "duty"@ + seq!['='],
        "vol="@ == "vol"@ + seq!['='],
        layout::is_word("instr"@),
        layout::is_key("a"@) && "a"@[0] != '#',
        layout::is_key("d"@) && "d"@[0] != '#',
        layout::is_key("s"@) && "s"@[0] != '#',
        layout::is_key("r"@) && "r"@[0] != '#',
        layout::is_key("duty"@) && "duty"@[0] != '#',
        layout::is_key("vol"@) && "vol"@[0] != '#',
        "a"@.len() <= 4 && "d"@.len() <= 4 && "s"@.len() <= 4 && "r"@.len() <= 4,
        "duty"@.len() <= 4 && "vol"@.len() <= 4,
        "d"@ != "a"@,
        "s"@ != "a"@ && "s"@ != "d"@,
        "r"@ != "a"@ && "r"@ != "d"@ && "r"@ != "s"@,
        "duty"@ != "a"@ && "duty"@ != "d"@ && "duty"@ != "s"@ && "duty"@ != "r"@,
        "vol"@ != "a"@ && "vol"@ != "d"@ && "vol"@ != "s"@ && "vol"@ != "r"@ && "vol"@
            != "duty"@,
        forall|k: Seq<char>|
            k.len() <= 4 ==> #[trigger] is_no_long_name(k),
{
    reveal_strlit("attack");
    reveal_strlit("decay");
    reveal_strlit("sustain");
    reveal_strlit("release");
    reveal_strlit("@instr");
    reveal_strlit("instr");
    reveal_strlit("a=");
    reveal_strlit("d=");
    reveal_strlit("s=");
    reveal_strlit("r=");
    reveal_strlit("duty=");
    reveal_strlit("vol=");
    reveal_strlit("a");
    reveal_strlit("d");
    reveal_strlit("s");
    reveal_strlit("r");
    reveal_strlit("duty");
    reveal_strlit("vol");
    assert("@instr"@ =~= seq!['@'] + "instr"@);
    assert("a="@ =~= "a"@ + seq!['=']);
    assert("d="@ =~= "d"@ + seq!['=']);
    assert("s="@ =~= "s"@ + seq!['=']);
    assert("r="@ =~= "r"@ + seq!['=']);
    assert("duty="@ =~= "duty"@ + seq!['=']);
    assert("vol="@ =~= "vol"@ + seq!['=']);
    assert("a"@[0] == 'a' && "d"@[0] == 'd' && "s"@[0] == 's' && "r"@[0] == 'r');
}

proof fn lemma_ms_value(n: u16, k: Seq<char>)
    requires
        layout::is_key(k),
        k[0] != '#',
    ensures
        text::cut_word(k + seq!['='] + text::dec(n as nat)) == Some((k, text::dec(n as nat))),
        text::parse_uint(text::dec(n as nat), 10, u16::MAX as nat) == Some(n as nat),
        layout::is_quiet(k + seq!['='] + text::dec(n as nat)),
{
    lemma_dec_value(n as nat, u16::MAX as nat);
    lemma_cut(k, text::dec(n as nat));
    lemma_kv_word(k, text::dec(n as nat));
}

proof fn lemma_level_value(m: i32, k: Seq<char>)
    requires
        layout::is_key(k),
        k[0] != '#',
        storable_level(m),
    ensures
        text::cut_word(k + seq!['='] + text::milli_text(m as int)) == Some(
            (k, text::milli_text(m as int)),
        ),
        text::parse_milli(text::milli_text(m as int)) == Some(m as int),
        layout::is_quiet(k + seq!['='] + text::milli_text(m as int)),
{
    let v = text::milli_text(m as int);
    text::lemma_milli_text(m as int);
    assert forall|i: int| 0 <= i < v.len() implies !text::is_ws(#[trigger] v[i]) by {
        assert(text::is_alnum(v[i]) || v[i] == '-' || v[i] == '.');
    }
    lemma_cut(k, v);
    lemma_kv_word(k, v);
}

#[verifier::rlimit(80)]
#[verifier::spinoff_prover]
proof fn lemma_instr_fold(i0: Instrument, inst: Instrument, ws: Seq<Seq<char>>)
    requires
        ws.len() == 6,
        ws[0] == "a="@ + text::dec(inst.attack_ms as nat),
        ws[1] == "d="@ + text::dec(inst.decay_ms as nat),
        ws[2] == "s="@ + text::milli_text(inst.sustain as int),
        ws[3] == "r="@ + text::dec(inst.release_ms as nat),
        ws[4] == "duty="@ + text::milli_text(inst.duty as int),
        ws[5] == "vol="@ + text::milli_text(inst.volume as int),
        storable_level(inst.sustain),
        storable_level(inst.duty),
        storable_level(inst.volume),
    ensures
        reader::instr_words(i0, ws) == Ok::<Instrument, Fault>(inst),
{
    lemma_instr_keys();
    lemma_ms_value(inst.attack_ms, "a"@);
    lemma_ms_value(inst.decay_ms, "d"@);
    lemma_level_value(inst.sustain, "s"@);
    lemma_ms_value(inst.release_ms, "r"@);
    lemma_level_value(inst.duty, "duty"@);
    lemma_level_value(inst.volume, "vol"@);
    assert(is_no_long_name("a"@) && is_no_long_name("d"@) && is_no_long_name("s"@));
    assert(is_no_long_name("r"@) && is_no_long_name("duty"@) && is_no_long_name("vol"@));
    let i1 = Instrument { attack_ms: inst.attack_ms, ..i0 };
    let i2 = Instrument { decay_ms: inst.decay_ms, ..i1 };
    let i3 = Instrument { sustain: inst.sustain, ..i2 };
    let i4 = Instrument { release_ms: inst.release_ms, ..i3 };
    let i5 = Instrument { duty: inst.duty, ..i4 };
    let i6 = Instrument { volume: inst.volume, ..i5 };
    assert(i6 == inst);
    assert(reader::instr_word(i0, ws[0]) == Ok::<Instrument, Fault>(i1));
    assert(reader::instr_word(i1, ws[1]) == Ok::<Instrument, Fault>(i2));
    assert(reader::instr_word(i2, ws[2]) == Ok::<Instrument, Fault>(i3));
    assert(reader::instr_word(i3, ws[3]) == Ok::<Instrument, Fault>(i4));
    assert(reader::instr_word(i4, ws[4]) == Ok::<Instrument, Fault>(i5));
    assert(reader::instr_word(i5, ws[5]) == Ok::<Instrument, Fault>(i6));
    let w1 = ws.skip(1);
    let w2 = w1.skip(1);
    let w3 = w2.skip(1);
    let w4 = w3.skip(1);
    let w5 = w4.skip(1);
    let w6 = w5.skip(1);
    assert(w6.len() == 0);
    assert(reader::instr_words(i6, w6) == Ok::<Instrument, Fault>(i6));
    assert(w5[0] == ws[5]);
    assert(reader::instr_words(i5, w5) == Ok::<Instrument, Fault>(i6));
    assert(w4[0] == ws[4]);
    assert(reader::instr_words(i4, w4) == Ok::<Instrument, Fault>(i6));
    assert(w3[0] == ws[3]);
    assert(reader::instr_words(i3, w3) == Ok::<Instrument, Fault>(i6));
    assert(w2[0] == ws[2]);
    assert(reader::instr_words(i2, w2) == Ok::<Instrument, Fault>(i6));
    assert(w1[0] == ws[1]);
    assert(reader::instr_words(i1, w1) == Ok::<Instrument, Fault>(i6));
}

proof fn lemma_instr_directive(a: ReaderView, args: Seq<char>, song: SongView)
    requires
        reader::instr_line(a.song, args) == Ok::<SongView, Fault>(song),
    ensures
        forall|n: nat| #[trigger]
            reader::directive(a, n, "instr"@, args) == Ok::<ReaderView, Fault>(
                ReaderView { song, section: Section::Nothing, ..a },
            ),
{
    reveal_strlit("instr");
    reveal_strlit("song");
    reveal_strlit("phrase");
    reveal_strlit("chain");
    reveal_strlit("arrangement");
    reveal_strlit("arr");
    reveal_strlit("groove");
    reveal_strlit("length");
    reveal_strlit("len");
    assert("instr"@[0] == 'i' && "chain"@[0] == 'c');
    assert("instr"@ != "song"@ && "instr"@ != "phrase"@ && "instr"@ != "chain"@);
    assert("instr"@ != "arrangement"@ && "instr"@ != "arr"@ && "instr"@ != "groove"@);
    assert("instr"@ != "length"@ && "instr"@ != "len"@);
}

#[verifier::rlimit(80)]
#[verifier::spinoff_prover]
proof fn lemma_instr_words_spaced(i: nat, inst: Instrument)
    requires
        i < INSTRUMENTS,
        storable_level(inst.sustain),
        storable_level(inst.duty),
        storable_level(inst.volume),
    ensures
        layout::spaced(instr_fields(inst)),
        layout::spaced(seq![(text::hex2(i), 2nat)] + instr_fields(inst)),
{
    lemma_instr_keys();
    lemma_hex_word(i, usize::MAX as nat);
    lemma_ms_value(inst.attack_ms, "a"@);
    lemma_ms_value(inst.decay_ms, "d"@);
    lemma_level_value(inst.sustain, "s"@);
    lemma_ms_value(inst.release_ms, "r"@);
    lemma_level_value(inst.duty, "duty"@);
    lemma_level_value(inst.volume, "vol"@);
    let fs = instr_fields(inst);
    assert(layout::spaced(fs));
    let rest = seq![(text::hex2(i), 2nat)] + fs;
    assert forall|k: int| 0 <= k < rest.len() implies layout::is_quiet(#[trigger] rest[k].0) by {
        if k > 0 {
            assert(rest[k] == fs[k - 1]);
            assert(layout::is_quiet(fs[k - 1].0));
        }
    }
    assert forall|k: int| 0 <= k < rest.len() - 1 implies #[trigger] rest[k].1 >= 1 by {
        if k > 0 {
            assert(rest[k] == fs[k - 1]);
            assert(fs[k - 1].1 >= 1);
        }
    }
}

/// The fields of an `@instr` line.
pub open spec fn instr_fields(inst: Instrument) -> Seq<(Seq<char>, nat)> {
    seq![
        writer::ms_field("a="@, inst.attack_ms as nat, 4),
        writer::ms_field("d="@, inst.decay_ms as nat, 4),
        ("s="@ + text::milli_text(inst.sustain as int), 2nat),
        writer::ms_field("r="@, inst.release_ms as nat, 5),
        ("duty="@ + text::milli_text(inst.duty as int), 2nat),
        ("vol="@ + text::milli_text(inst.volume as int), 0nat),
    ]
}

proof fn lemma_instr_line(a: ReaderView, i: nat, inst: Instrument) -> (section: Section)
    requires
        i < INSTRUMENTS,
        a.song.instruments.len() == INSTRUMENTS,
        storable_level(inst.sustain),
        storable_level(inst.duty),
        storable_level(inst.volume),
    ensures
        section == Section::Nothing,
        leads(
            a,
            seq![writer::instr_text(i, inst)],
            ReaderView {
                song: SongView { instruments: a.song.instruments.update(i as int, inst), ..a.song },
                section,
                ..a
            },
        ),
{
    lemma_instr_keys();
    lemma_hex_word(i, usize::MAX as nat);
    lemma_instr_words_spaced(i, inst);
    let fs = instr_fields(inst);
    let h = text::hex2(i);
    let rest = seq![(h, 2nat)] + fs;
    layout::lemma_laid_directive("instr"@, 1, rest);
    layout::lemma_indexed(h, 2, fs);
    layout::lemma_words_laid(fs);
    assert(seq![(seq!['@'] + "instr"@, 1nat)] + rest =~= seq![
        ("@instr"@, 1nat),
        (h, 2nat),
        fs[0],
        fs[1],
        fs[2],
        fs[3],
        fs[4],
        fs[5],
    ]);
    let ws = layout::firsts(fs);
    lemma_instr_fold(a.song.instruments[i as int], inst, ws);
    let song = SongView { instruments: a.song.instruments.update(i as int, inst), ..a.song };
    assert(reader::instr_line(a.song, writer::laid(rest)) == Ok::<SongView, Fault>(song));
    lemma_instr_directive(a, writer::laid(rest), song);
    lemma_directive_line(
        a,
        writer::instr_text(i, inst),
        "instr"@,
        writer::laid(rest),
        ReaderView { song, section: Section::Nothing, ..a },
    );
    Section::Nothing
}

pub open spec fn instruments_read(
    base: Seq<Instrument>,
    is: Seq<Instrument>,
    k: nat,
) -> Seq<Instrument> {
    Seq::new(
        INSTRUMENTS as nat,
        |i: int|
            if i < k {
                is[i]
            } else {
                base[i]
            },
    )
}

proof fn lemma_instr_lines(a: ReaderView, is: Seq<Instrument>, k: nat) -> (section: Section)
    requires
        k <= INSTRUMENTS,
        is.len() == INSTRUMENTS,
        a.song.instruments.len() == INSTRUMENTS,
        forall|i: int|
            0 <= i < INSTRUMENTS ==> storable_level((#[trigger] is[i]).sustain) && storable_level(
                is[i].duty,
            ) && storable_level(is[i].volume),
    ensures
        leads(
            a,
            writer::instr_lines(is, k),
            ReaderView {
                song: SongView {
                    instruments: instruments_read(a.song.instruments, is, k),
                    ..a.song
                },
                section,
                ..a
            },
        ),
    decreases k,
{
    if k == 0 {
        assert(instruments_read(a.song.instruments, is, 0) =~= a.song.instruments);
        lemma_leads_none(a);
        a.section
    } else {
        let j = (k - 1) as nat;
        let sec = lemma_instr_lines(a, is, j);
        let mid = ReaderView {
            song: SongView { instruments: instruments_read(a.song.instruments, is, j), ..a.song },
            section: sec,
            ..a
        };
        let end = lemma_instr_line(mid, j, is[k - 1]);
        let to = ReaderView {
            song: SongView { instruments: instruments_read(a.song.instruments, is, k), ..a.song },
            section: end,
            ..a
        };
        assert(instruments_read(a.song.instruments, is, j).update(j as int, is[k - 1])
            =~= instruments_read(a.song.instruments, is, k));
        let line = writer::instr_text(j, is[k - 1]);
        lemma_leads_add(a, writer::instr_lines(is, j), mid, seq![line], to);
        assert(writer::instr_lines(is, k) =~= writer::instr_lines(is, j) + seq![line]);
        end
    }
}

// ---------------------------------------------------------------- the whole song

proof fn lemma_below(s: Seq<usize>, n: nat)
    requires
        forall|i: int| 0 <= i < s.len() ==> #[trigger] s[i] < n,
    ensures
        reader::below(s, n) == s,
    decreases s.len(),
{
    if s.len() > 0 {
        let f = s.drop_last();
        assert forall|i: int| 0 <= i < f.len() implies #[trigger] f[i] < n by {
            assert(s[i] < n);
        }
        lemma_below(f, n);
        assert(s[s.len() - 1] < n);
        assert(f.push(s.last()) =~= s);
    }
}

proof fn lemma_bytes_below(s: Seq<u8>, n: nat)
    requires
        forall|i: int| 0 <= i < s.len() ==> #[trigger] s[i] < n,
    ensures
        reader::bytes_below(s, n) == s,
    decreases s.len(),
{
    if s.len() > 0 {
        let f = s.drop_last();
        assert forall|i: int| 0 <= i < f.len() implies #[trigger] f[i] < n by {
            assert(s[i] < n);
        }
        lemma_bytes_below(f, n);
        assert(s[s.len() - 1] < n);
        assert(f.push(s.last()) =~= s);
    }
}

proof fn lemma_no_chain_warnings(cs: Seq<ChainView>, n: nat, k: nat)
    requires
        k <= cs.len(),
        forall|i: int| 0 <= i < cs.len() ==> storable_chain(#[trigger] cs[i], n),
    ensures
        reader::chain_warnings(cs, n, k).len() == 0,
    decreases k,
{
    if k > 0 {
        lemma_no_chain_warnings(cs, n, (k - 1) as nat);
        assert(storable_chain(cs[k - 1], n));
        lemma_bytes_below(cs[k - 1].phrases, n);
    }
}

/// The warning about holds that no note sounds into, if there are any.
pub open spec fn hold_warnings(s: SongView) -> Seq<Seq<char>> {
    let orphans = reader::song_orphans(s.phrases, s.phrases.len());
    if orphans > 0 {
        seq![text::dec(orphans) + " hold cell(s) (===) have no note above them"@]
    } else {
        Seq::empty()
    }
}

proof fn lemma_finish(st: ReaderView, s: SongView)
    requires
        storable(s),
        st.song == s,
        st.warnings.len() == 0,
    ensures
        reader::finish(st) == (s, hold_warnings(s)),
{
    let n = s.phrases.len();
    lemma_below(s.order, n);
    lemma_bytes_below(s.arrangement, s.chains.len());
    lemma_no_chain_warnings(s.chains, n, s.chains.len());
    assert(reader::chain_warnings(s.chains, n, s.chains.len()) =~= Seq::<Seq<char>>::empty());
    assert forall|i: int| 0 <= i < s.chains.len() implies reader::checked_chains(s.chains, n)[i]
        == #[trigger] s.chains[i] by {
        assert(storable_chain(s.chains[i], n));
        lemma_bytes_below(s.chains[i].phrases, n);
    }
    assert(reader::checked_chains(s.chains, n) =~= s.chains);
    assert(st.warnings =~= Seq::<Seq<char>>::empty());
    let (song, ws) = reader::finish(st);
    assert(ws =~= hold_warnings(s));
    assert(song =~= s);
}

proof fn lemma_head(s: SongView)
    requires
        storable(s),
    ensures
        leads(
            reader::fresh_reader(),
            writer::head_lines(s),
            ReaderView {
                song: SongView {
                    samples: s.samples,
                    ..with_driver(
                        s,
                        with_meta(s, with_song(s, reader::fresh_reader().song)),
                    )
                },
                ..reader::fresh_reader()
            },
        ),
{
    let a = reader::fresh_reader();
    lemma_heads_line(a);
    lemma_song_line(a, s);
    let b = ReaderView { song: with_song(s, a.song), ..a };
    lemma_meta_lines(b, s);
    let c = ReaderView { song: with_meta(s, b.song), ..b };
    lemma_driver_lines(c, s);
    let d = ReaderView { song: with_driver(s, c.song), ..c };
    lemma_sample_lines(d, s.samples, s.samples.len());
    assert(s.samples.take(s.samples.len() as int) =~= s.samples);
    let e = ReaderView { song: SongView { samples: s.samples, ..d.song }, ..d };
    lemma_blank_line(e);
    let l1 = seq!["# viper song file"@];
    let l2 = seq![writer::song_line(s)];
    let l3 = writer::one_if(writer::has_meta(s), writer::meta_line(s));
    let l4 = writer::driver_lines(s);
    let l5 = writer::sample_lines(s.samples, s.samples.len());
    lemma_leads_add(a, l1, a, l2, b);
    assert(l1 + l2 =~= seq!["# viper song file"@, writer::song_line(s)]);
    lemma_leads_add(a, l1 + l2, b, l3, c);
    lemma_leads_add(a, l1 + l2 + l3, c, l4, d);
    lemma_leads_add(a, l1 + l2 + l3 + l4, d, l5, e);
    lemma_leads_add(a, l1 + l2 + l3 + l4 + l5, e, seq![Seq::empty()], e);
}

proof fn lemma_lines_read(s: SongView) -> (end: ReaderView)
    requires
        storable(s),
    ensures
        leads(reader::fresh_reader(), writer::vip_lines(s), end),
        end.song == s,
        end.warnings.len() == 0,
{
    let a = reader::fresh_reader();
    lemma_head(s);
    let b = ReaderView {
        song: SongView {
            samples: s.samples,
            ..with_driver(s, with_meta(s, with_song(s, a.song)))
        },
        ..a
    };
    let l1 = writer::head_lines(s);
    let n = s.phrases.len();
    lemma_phrase_lines(b, s.phrases, n);
    let c = after_phrases(b, s.phrases, n);
    assert(s.phrases.take(n as int) =~= s.phrases);
    let l2 = writer::phrase_lines(s.phrases, n);
    lemma_leads_add(a, l1, b, l2, c);
    let sec3 = lemma_arrangement_lines(c, s);
    let d = ReaderView { song: with_arrangement(s, c.song), section: sec3, ..c };
    let l3 = writer::arrangement_lines(s);
    lemma_leads_add(a, l1 + l2, c, l3, d);
    let (sec4, pos4) = lemma_groove_lines(d, s);
    let e = ReaderView {
        song: SongView { groove: s.groove, ..d.song },
        section: sec4,
        groove_pos: pos4,
        ..d
    };
    let l4 = writer::groove_lines(s.groove);
    lemma_leads_add(a, l1 + l2 + l3, d, l4, e);
    let sec5 = lemma_length_lines(e, s);
    let f = ReaderView {
        song: SongView { channel_length: s.channel_length, ..e.song },
        section: sec5,
        ..e
    };
    let l5 = writer::length_lines(s.channel_length);
    lemma_leads_add(a, l1 + l2 + l3 + l4, e, l5, f);
    let sec6 = lemma_instr_lines(f, s.instruments, INSTRUMENTS as nat);
    let g = ReaderView {
        song: SongView {
            instruments: instruments_read(f.song.instruments, s.instruments, INSTRUMENTS as nat),
            ..f.song
        },
        section: sec6,
        ..f
    };
    assert(instruments_read(f.song.instruments, s.instruments, INSTRUMENTS as nat)
        =~= s.instruments);
    let l6 = writer::instr_lines(s.instruments, INSTRUMENTS as nat);
    lemma_leads_add(a, l1 + l2 + l3 + l4 + l5, f, l6, g);
    if !writer::writes_order(s) {
        assert(s.order =~= a.song.order);
    }
    assert(g.song =~= s);
    g
}

/// Saving and loading a song gives back the song: its text reads as the same
/// song, with no warning but the one about orphaned holds.
pub proof fn law_save_then_load(s: SongView)
    requires
        storable(s),
    ensures
        reader::parse_vip(writer::vip_text(s)) == Ok::<(SongView, Seq<Seq<char>>), VipError>(
            (s, hold_warnings(s)),
        ),
{
    let end = lemma_lines_read(s);
    let ls = writer::vip_lines(s);
    layout::lemma_lines(ls);
    assert(reader::run_lines(reader::fresh_reader(), 1, ls) == Ok::<ReaderView, VipError>(end));
    lemma_finish(end, s);
}

/// Saving is stable: what was loaded from a saved song saves as the same
/// text, byte for byte.
pub proof fn law_second_save_is_stable(s: SongView)
    requires
        storable(s),
    ensures
        match reader::parse_vip(writer::vip_text(s)) {
            Ok((back, _)) => writer::vip_text(back) == writer::vip_text(s),
            Err(_) => false,
        },
{
    law_save_then_load(s);
}

/// Whether a line gives an order.
pub open spec fn gives_order(line: Seq<char>) -> bool {
    exists|i: int|
        0 <= i < text::words(line).len() && is_order_word(#[trigger] text::words(line)[i])
}

pub open spec fn is_order_word(w: Seq<char>) -> bool {
    match text::cut_word(w) {
        Some((k, _)) => k == "order"@,
        None => false,
    }
}

/// Whether a line is a `@song` directive.
pub open spec fn is_song_line(l: Seq<char>) -> bool {
    l.len() >= 5 && l.take(5) == "@song"@
}

/// Whether a line is told from a `@song` directive by its first characters.
spec fn is_other_line(l: Seq<char>) -> bool {
    l.len() < 2 || l[0] != '@' || l[1] != 's'
}

spec fn all_other(ls: Seq<Seq<char>>) -> bool {
    forall|i: int| 0 <= i < ls.len() ==> is_other_line(#[trigger] ls[i])
}

proof fn lemma_other_laid(ts: Seq<(Seq<char>, nat)>)
    requires
        ts.len() > 0,
        ts[0].0.len() >= 2,
        ts[0].0[1] != 's',
    ensures
        is_other_line(writer::laid(ts)),
{
    assert(ts =~= seq![ts[0]] + ts.skip(1));
    layout::lemma_laid_front(ts[0], ts.skip(1));
    assert(writer::laid(ts)[1] == ts[0].0[1]);
}

proof fn lemma_other_indented(r: Seq<char>)
    ensures
        is_other_line(writer::sp(2) + r),
{
    assert((writer::sp(2) + r)[0] == writer::sp(2)[0]);
}

proof fn lemma_other_head(s: SongView, k: nat)
    requires
        k <= s.samples.len(),
    ensures
        all_other(writer::one_if(writer::has_meta(s), writer::meta_line(s))),
        all_other(writer::driver_lines(s)),
        all_other(writer::sample_lines(s.samples, k)),
    decreases k,
{
    reveal_strlit("@meta ");
    reveal_strlit("@driver");
    reveal_strlit("@dpcm");
    let m = writer::meta_line(s);
    assert(m[0] == "@meta "@[0] && m[1] == "@meta "@[1]);
    if let Some((bin, sym)) = s.driver {
        let w = ("@driver"@, 2nat);
        lemma_other_laid(
            seq![
                w,
                ("bin="@ + quote::value_text(bin), 2nat),
                ("sym="@ + quote::value_text(sym), 2nat),
                (
                    "expansion="@ + (if s.expansion {
                        "vrc6"@
                    } else {
                        "none"@
                    }),
                    0nat,
                ),
            ],
        );
    }
    if k > 0 {
        lemma_other_head(s, (k - 1) as nat);
        lemma_sample_text((k - 1) as nat, s.samples[k - 1]);
        lemma_sample_keys();
        let l = writer::sample_text((k - 1) as nat, s.samples[k - 1]);
        assert(l[1] == "dpcm"@[0]) by {
            reveal_strlit("dpcm");
            assert("dpcm"@.len() == 4);
        }
        reveal_strlit("dpcm");
    }
}

proof fn lemma_other_rows(g: Seq<Seq<Cell>>, k: nat)
    ensures
        all_other(writer::row_lines(g, k)),
    decreases k,
{
    if k > 0 {
        lemma_other_rows(g, (k - 1) as nat);
        let row = g[k - 1];
        lemma_other_indented(
            writer::laid(
                seq![
                    (text::hex2((k - 1) as nat), 7nat),
                    writer::column(row[0], 2),
                    writer::column(row[1], 2),
                    writer::column(row[2], 2),
                    writer::column(row[3], 2),
                    writer::column(row[4], 0),
                ],
            ),
        );
        assert(is_other_line(writer::row_text((k - 1) as nat, row)));
    }
}

proof fn lemma_other_phrases(ps: Seq<Seq<Seq<Cell>>>, k: nat)
    ensures
        all_other(writer::phrase_lines(ps, k)),
    decreases k,
{
    if k > 0 {
        lemma_other_phrases(ps, (k - 1) as nat);
        lemma_other_rows(ps[k - 1], STEPS_PER_PHRASE as nat);
        reveal_strlit("@phrase");
        reveal_strlit("  # step   PU1             PU2             TRI             NOI             DPCM");
        lemma_other_laid(seq![("@phrase"@, 1nat), (text::hex2((k - 1) as nat), 0nat)]);
        assert(writer::column_heads()[0] == ' ');
        let head = seq![
            writer::index_line("@phrase"@, (k - 1) as nat),
            writer::column_heads(),
        ];
        assert(all_other(head));
        assert(all_other(seq![Seq::<char>::empty()]));
        assert(all_other(writer::phrase_block((k - 1) as nat, ps[k - 1])));
    }
}

proof fn lemma_other_chain_head(i: nat, name: Option<Seq<char>>)
    ensures
        is_other_line(writer::chain_head(i, name)),
{
    reveal_strlit("@chain");
    lemma_other_laid(seq![("@chain"@, 1nat), (text::hex2(i), 0nat)]);
    if let Some(n) = name {
        lemma_other_laid(
            seq![("@chain"@, 1nat), (text::hex2(i), 2nat), ("name="@ + quote::quote(n), 0nat)],
        );
    }
}

proof fn lemma_other_chains(cs: Seq<ChainView>, k: nat)
    ensures
        all_other(writer::chain_lines(cs, k)),
    decreases k,
{
    if k > 0 {
        lemma_other_chains(cs, (k - 1) as nat);
        lemma_other_chain_head((k - 1) as nat, cs[k - 1].name);
        lemma_other_indented(writer::joined(writer::byte_items(cs[k - 1].phrases), ' '));
        assert(all_other(writer::byte_row(cs[k - 1].phrases)));
        assert(all_other(
            writer::chain_lines(cs, (k - 1) as nat).push(
                writer::chain_head((k - 1) as nat, cs[k - 1].name),
            ),
        ));
    }
}

proof fn lemma_other_instruments(v: Seq<Instrument>, k: nat)
    ensures
        all_other(writer::instr_lines(v, k)),
    decreases k,
{
    if k > 0 {
        lemma_other_instruments(v, (k - 1) as nat);
        reveal_strlit("@instr");
        let inst = v[k - 1];
        lemma_other_laid(
            seq![
                ("@instr"@, 1nat),
                (text::hex2((k - 1) as nat), 2nat),
                writer::ms_field("a="@, inst.attack_ms as nat, 4),
                writer::ms_field("d="@, inst.decay_ms as nat, 4),
                ("s="@ + text::milli_text(inst.sustain as int), 2nat),
                writer::ms_field("r="@, inst.release_ms as nat, 5),
                ("duty="@ + text::milli_text(inst.duty as int), 2nat),
                ("vol="@ + text::milli_text(inst.volume as int), 0nat),
            ],
        );
        assert(is_other_line(writer::instr_text((k - 1) as nat, inst)));
    }
}

/// Arrangement, groove and lengths.
proof fn lemma_other_settings(s: SongView)
    ensures
        all_other(writer::arrangement_lines(s)),
        all_other(writer::groove_lines(s.groove)),
        all_other(writer::length_lines(s.channel_length)),
{
    reveal_strlit("@arrangement");
    reveal_strlit("@groove");
    reveal_strlit("@length");
    lemma_other_chains(s.chains, s.chains.len());
    lemma_other_laid(
        seq![("@arrangement"@, 2nat), ("loop="@ + text::hex2(s.arr_loop as nat), 0nat)],
    );
    lemma_other_indented(writer::joined(writer::byte_items(s.arrangement), ' '));
    assert(all_other(writer::byte_row(s.arrangement)));
    assert(all_other(seq![writer::arrangement_line(s.arr_loop as nat)]));
    assert(all_other(seq![Seq::<char>::empty()]));
    assert("@groove"@[1] == 'g');
    lemma_other_indented(writer::joined(writer::groove_items(s.groove), ' '));
    let l = s.channel_length;
    lemma_other_laid(
        seq![
            ("@length"@, 2nat),
            ("pu1="@ + text::dec(l[0] as nat), 2nat),
            ("pu2="@ + text::dec(l[1] as nat), 2nat),
            ("tri="@ + text::dec(l[2] as nat), 2nat),
            ("noi="@ + text::dec(l[3] as nat), 2nat),
            ("dpcm="@ + text::dec(l[4] as nat), 0nat),
        ],
    );
    assert(is_other_line(writer::length_line(l)));
}

/// A saved song has one `@song` line.
proof fn lemma_one_song_line(s: SongView)
    ensures
        writer::vip_lines(s).len() > 1,
        writer::vip_lines(s)[1] == writer::song_line(s),
        forall|i: int|
            0 <= i < writer::vip_lines(s).len() && i != 1 ==> is_other_line(
                #[trigger] writer::vip_lines(s)[i],
            ),
{
    reveal_strlit("# viper song file");
    let top = seq!["# viper song file"@, writer::song_line(s)];
    assert(is_other_line(top[0]));
    lemma_other_head(s, s.samples.len());
    lemma_other_phrases(s.phrases, s.phrases.len());
    lemma_other_settings(s);
    lemma_other_instruments(s.instruments, INSTRUMENTS as nat);
    let blank = seq![Seq::<char>::empty()];
    assert(all_other(blank));
    let r1 = writer::one_if(writer::has_meta(s), writer::meta_line(s));
    let r2 = r1 + writer::driver_lines(s);
    let r3 = r2 + writer::sample_lines(s.samples, s.samples.len());
    let r4 = r3 + blank;
    let r5 = r4 + writer::phrase_lines(s.phrases, s.phrases.len());
    let r6 = r5 + writer::arrangement_lines(s);
    let r7 = r6 + writer::groove_lines(s.groove);
    let r8 = r7 + writer::length_lines(s.channel_length);
    let r9 = r8 + writer::instr_lines(s.instruments, INSTRUMENTS as nat);
    lemma_other_both(r1, writer::driver_lines(s));
    lemma_other_both(r2, writer::sample_lines(s.samples, s.samples.len()));
    lemma_other_both(r3, blank);
    lemma_other_both(r4, writer::phrase_lines(s.phrases, s.phrases.len()));
    lemma_other_both(r5, writer::arrangement_lines(s));
    lemma_other_both(r6, writer::groove_lines(s.groove));
    lemma_other_both(r7, writer::length_lines(s.channel_length));
    lemma_other_both(r8, writer::instr_lines(s.instruments, INSTRUMENTS as nat));
    assert(writer::vip_lines(s) =~= top + r9);
    assert forall|i: int| 0 <= i < writer::vip_lines(s).len() && i != 1 implies is_other_line(
        #[trigger] writer::vip_lines(s)[i],
    ) by {
        if i >= 2 {
            assert(writer::vip_lines(s)[i] == r9[i - 2]);
        }
    }
}

proof fn lemma_other_both(a: Seq<Seq<char>>, b: Seq<Seq<char>>)
    requires
        all_other(a),
        all_other(b),
    ensures
        all_other(a + b),
{
    assert forall|i: int| 0 <= i < (a + b).len() implies is_other_line(#[trigger] (a + b)[i]) by {
        if i < a.len() {
            assert((a + b)[i] == a[i]);
        } else {
            assert((a + b)[i] == b[i - a.len()]);
        }
    }
}

/// A saved song gives its order in a `@song` line where it has one and no
/// arrangement derives it, and nowhere else.
pub proof fn law_order_is_written_without_arrangement(s: SongView)
    ensures
        forall|i: int|
            0 <= i < writer::vip_lines(s).len() && is_song_line(#[trigger] writer::vip_lines(s)[i])
                ==> (gives_order(writer::vip_lines(s)[i]) <==> s.arrangement.len() == 0
                && s.order.len() > 0),
        exists|i: int|
            0 <= i < writer::vip_lines(s).len() && is_song_line(
                #[trigger] writer::vip_lines(s)[i],
            ),
{
    lemma_one_song_line(s);
    lemma_song_line_order(s);
    reveal_strlit("@song");
    assert forall|i: int|
        0 <= i < writer::vip_lines(s).len() && is_song_line(#[trigger] writer::vip_lines(s)[i])
            && i != 1 implies false by {
        let l = writer::vip_lines(s)[i];
        assert(l.take(5)[1] == "@song"@[1] && l.take(5)[0] == "@song"@[0]);
    }
    assert(is_song_line(writer::vip_lines(s)[1]));
}

/// The words that every song line has.
proof fn lemma_song_head(s: SongView)
    ensures
        "@song"@.len() == 5,
        layout::is_quiet("@song"@) && !is_order_word("@song"@),
        layout::is_quiet("bpm="@ + text::dec(s.bpm as nat)),
        !is_order_word("bpm="@ + text::dec(s.bpm as nat)),
        layout::is_quiet("edit_step="@ + text::dec(s.edit_step as nat)),
        !is_order_word("edit_step="@ + text::dec(s.edit_step as nat)),
        layout::is_quiet("current="@ + text::hex2(s.current_phrase as nat)),
        !is_order_word("current="@ + text::hex2(s.current_phrase as nat)),
{
    reveal_strlit("@song");
    lemma_song_keys();
    text::lemma_char_index_is("@song"@, '=', 5);
    lemma_cut("bpm"@, text::dec(s.bpm as nat));
    lemma_cut("edit_step"@, text::dec(s.edit_step as nat));
    lemma_cut("current"@, text::hex2(s.current_phrase as nat));
    lemma_bpm_word(s, s.bpm);
    lemma_edit_step_word(s, s.edit_step);
    lemma_current_word(s, s.current_phrase);
}

/// The words that a song line has for an order.
proof fn lemma_song_tail(s: SongView)
    requires
        s.order.len() > 0,
    ensures
        ({
            let w = "order=["@ + writer::joined(writer::order_items(s.order), ',') + "]"@;
            layout::is_quiet(w) && is_order_word(w)
        }),
        layout::is_quiet("loop="@ + text::hex2(s.loop_pos as nat)),
{
    lemma_song_keys();
    let j = writer::joined(writer::order_items(s.order), ',');
    let b = seq!['['] + j + seq![']'];
    assert("order=["@ + j + "]"@ =~= "order"@ + seq!['='] + b);
    lemma_cut("order"@, b);
    lemma_order_word(s, s.order);
    lemma_loop_word(s, s.loop_pos);
}

/// A laid-out line begins with its first word.
proof fn lemma_begins(ts: Seq<(Seq<char>, nat)>)
    requires
        ts.len() > 0,
    ensures
        writer::laid(ts).len() >= ts[0].0.len(),
        writer::laid(ts).take(ts[0].0.len() as int) == ts[0].0,
{
    assert(ts =~= seq![ts[0]] + ts.skip(1));
    layout::lemma_laid_front(ts[0], ts.skip(1));
    assert(writer::laid(ts).take(ts[0].0.len() as int) =~= ts[0].0);
}

proof fn lemma_song_line_order(s: SongView)
    ensures
        is_song_line(writer::song_line(s)),
        gives_order(writer::song_line(s)) <==> s.arrangement.len() == 0 && s.order.len() > 0,
{
    lemma_song_head(s);
    let w0 = "@song"@;
    let w1 = "bpm="@ + text::dec(s.bpm as nat);
    let w2 = "edit_step="@ + text::dec(s.edit_step as nat);
    let w3 = "current="@ + text::hex2(s.current_phrase as nat);
    if writer::writes_order(s) {
        lemma_song_tail(s);
        let w4 = "order=["@ + writer::joined(writer::order_items(s.order), ',') + "]"@;
        let w5 = "loop="@ + text::hex2(s.loop_pos as nat);
        let ts = seq![(w0, 2nat), (w1, 2nat), (w2, 2nat), (w3, 2nat), (w4, 2nat), (w5, 0nat)];
        assert(writer::song_line(s) == writer::laid(ts));
        layout::lemma_words_laid(ts);
        lemma_begins(ts);
        assert(layout::firsts(ts)[4] == w4);
        assert(is_order_word(text::words(writer::song_line(s))[4]));
    } else {
        let ts = seq![(w0, 2nat), (w1, 2nat), (w2, 2nat), (w3, 0nat)];
        assert(writer::song_line(s) == writer::laid(ts));
        layout::lemma_words_laid(ts);
        lemma_begins(ts);
        let ws = text::words(writer::song_line(s));
        assert(ws =~= seq![w0, w1, w2, w3]);
        assert forall|i: int| 0 <= i < ws.len() implies !is_order_word(#[trigger] ws[i]) by {
            if i == 0 {
            } else if i == 1 {
            } else if i == 2 {
            } else {
                assert(i == 3);
            }
        }
    }
}

} // verus!
