//! Writing a song as a `.vip` text.

use vstd::prelude::*;

use crate::song;
use crate::song::{
    Cell, Chain, ChainView, DpcmRef, DpcmView, Instrument, Phrase, Song, SongView, CHANNELS,
    INSTRUMENTS, STEPS_PER_PHRASE,
};
use crate::text;
use crate::vip;
use crate::vip::quote;

verus! {

// ---------------------------------------------------------------- layout

/// A run of spaces.
pub open spec fn sp(n: nat) -> Seq<char> {
    Seq::new(n, |i: int| ' ')
}

/// Words, each followed by a number of spaces.
pub open spec fn laid(ts: Seq<(Seq<char>, nat)>) -> Seq<char>
    decreases ts.len(),
{
    if ts.len() == 0 {
        Seq::empty()
    } else {
        laid(ts.drop_last()) + ts.last().0 + sp(ts.last().1)
    }
}

/// Items with a separator between them.
pub open spec fn joined(items: Seq<Seq<char>>, sep: char) -> Seq<char>
    decreases items.len(),
{
    if items.len() == 0 {
        Seq::empty()
    } else if items.len() == 1 {
        items[0]
    } else {
        joined(items.drop_last(), sep) + seq![sep] + items.last()
    }
}

/// Lines, each ended by a line feed.
pub open spec fn unlines(ls: Seq<Seq<char>>) -> Seq<char>
    decreases ls.len(),
{
    if ls.len() == 0 {
        Seq::empty()
    } else {
        unlines(ls.drop_last()) + ls.last() + seq!['\n']
    }
}

pub proof fn lemma_unlines_push(ls: Seq<Seq<char>>, x: Seq<char>)
    ensures
        unlines(ls.push(x)) == unlines(ls) + x + seq!['\n'],
{
    assert(ls.push(x).drop_last() =~= ls);
}

pub proof fn lemma_unlines_add(a: Seq<Seq<char>>, b: Seq<Seq<char>>)
    ensures
        unlines(a + b) == unlines(a) + unlines(b),
    decreases b.len(),
{
    if b.len() == 0 {
        assert(a + b =~= a);
        assert(unlines(a) + unlines(b) =~= unlines(a));
    } else {
        assert((a + b).drop_last() =~= a + b.drop_last());
        lemma_unlines_add(a, b.drop_last());
        assert(unlines(a + b) =~= unlines(a) + unlines(b));
    }
}

pub proof fn lemma_laid_push(ts: Seq<(Seq<char>, nat)>, w: Seq<char>, gap: nat)
    ensures
        laid(ts.push((w, gap))) == laid(ts) + w + sp(gap),
{
    assert(ts.push((w, gap)).drop_last() =~= ts);
}

/// Text laid out so far, with one more word.
proof fn lemma_laid_grow(pre: Seq<char>, ts: Seq<(Seq<char>, nat)>, w: Seq<char>, gap: nat)
    ensures
        pre + laid(ts) + w + sp(gap) == pre + laid(ts.push((w, gap))),
{
    lemma_laid_push(ts, w, gap);
    assert(pre + laid(ts) + w + sp(gap) =~= pre + (laid(ts) + w + sp(gap)));
}

/// A word in two parts.
proof fn lemma_two_parts(pre: Seq<char>, a: Seq<char>, b: Seq<char>)
    ensures
        pre + a + b == pre + (a + b),
{
    assert(pre + a + b =~= pre + (a + b));
}

fn put_spaces(out: &mut Vec<char>, n: usize)
    ensures
        final(out)@ == old(out)@ + sp(n as nat),
{
    let ghost start = out@;
    assert(start + sp(0) =~= start);
    for i in 0..n
        invariant
            out@ == start + sp(i as nat),
    {
        out.push(' ');
        assert(out@ =~= start + sp((i + 1) as nat));
    }
}

/// Appends one word and its gap to a line that is being laid out.
fn put_word(
    out: &mut Vec<char>,
    Ghost(pre): Ghost<Seq<char>>,
    Ghost(ts): Ghost<Seq<(Seq<char>, nat)>>,
    w: &[char],
    gap: usize,
)
    requires
        old(out)@ == pre + laid(ts),
    ensures
        final(out)@ == pre + laid(ts.push((w@, gap as nat))),
{
    text::put(out, w);
    put_spaces(out, gap);
    proof {
        lemma_laid_grow(pre, ts, w@, gap as nat);
    }
}

fn plain_word(w: &str) -> (r: Vec<char>)
    ensures
        r@ == w@,
{
    text::chars_of(w)
}

/// A key and a decimal number.
fn dec_word(key: &str, n: u64) -> (r: Vec<char>)
    ensures
        r@ == key@ + text::dec(n as nat),
{
    let mut r: Vec<char> = text::chars_of(key);
    text::put_dec(&mut r, n);
    r
}

/// A key and a hexadecimal number.
fn hex_word(key: &str, n: u64) -> (r: Vec<char>)
    ensures
        r@ == key@ + text::hex2(n as nat),
{
    let mut r: Vec<char> = text::chars_of(key);
    text::put_hex2(&mut r, n);
    r
}

/// Spaces that fill a field of the given width.
pub open spec fn pad(len: nat, width: nat) -> nat {
    if len < width {
        (width - len) as nat
    } else {
        0
    }
}

// ---------------------------------------------------------------- head

pub open spec fn order_items(order: Seq<usize>) -> Seq<Seq<char>> {
    order.map_values(|i: usize| text::hex2(i as nat))
}

pub open spec fn byte_items(v: Seq<u8>) -> Seq<Seq<char>> {
    v.map_values(|i: u8| text::hex2(i as nat))
}

/// With an arrangement the order is derived, so it is not written.
pub open spec fn writes_order(s: SongView) -> bool {
    s.arrangement.len() == 0 && s.order.len() > 0
}

pub open spec fn song_line(s: SongView) -> Seq<char> {
    if writes_order(s) {
        laid(
            seq![
                ("@song"@, 2nat),
                ("bpm="@ + text::dec(s.bpm as nat), 2nat),
                ("edit_step="@ + text::dec(s.edit_step as nat), 2nat),
                ("current="@ + text::hex2(s.current_phrase as nat), 2nat),
                ("order=["@ + joined(order_items(s.order), ',') + "]"@, 2nat),
                ("loop="@ + text::hex2(s.loop_pos as nat), 0nat),
            ],
        )
    } else {
        laid(
            seq![
                ("@song"@, 2nat),
                ("bpm="@ + text::dec(s.bpm as nat), 2nat),
                ("edit_step="@ + text::dec(s.edit_step as nat), 2nat),
                ("current="@ + text::hex2(s.current_phrase as nat), 0nat),
            ],
        )
    }
}

/// One field of an `@meta` line; an empty one is left out.
pub open spec fn meta_field(name: Seq<char>, v: Seq<char>) -> Seq<char> {
    if v.len() == 0 {
        Seq::empty()
    } else {
        name + quote::quote(v)
    }
}

pub open spec fn has_meta(s: SongView) -> bool {
    s.title.len() > 0 || s.artist.len() > 0 || s.copyright.len() > 0 || s.key_name.len() > 0
}

pub open spec fn meta_line(s: SongView) -> Seq<char> {
    "@meta "@ + meta_field(" title="@, s.title) + meta_field(" artist="@, s.artist) + meta_field(
        " license="@,
        s.copyright,
    ) + meta_field(" key="@, s.key_name)
}

pub open spec fn driver_text(bin: Seq<char>, sym: Seq<char>, expansion: bool) -> Seq<char> {
    laid(
        seq![
            ("@driver"@, 2nat),
            ("bin="@ + quote::value_text(bin), 2nat),
            ("sym="@ + quote::value_text(sym), 2nat),
            (
                "expansion="@ + (if expansion {
                    "vrc6"@
                } else {
                    "none"@
                }),
                0nat,
            ),
        ],
    )
}

pub open spec fn sample_text(i: nat, r: DpcmView) -> Seq<char> {
    if r.rate != 15 {
        laid(
            seq![
                ("@dpcm"@, 1nat),
                (text::hex2(i), 2nat),
                ("name="@ + quote::value_text(r.name), 2nat),
                ("path="@ + quote::value_text(r.path), 2nat),
                ("rate="@ + text::dec(r.rate as nat), 0nat),
            ],
        )
    } else {
        laid(
            seq![
                ("@dpcm"@, 1nat),
                (text::hex2(i), 2nat),
                ("name="@ + quote::value_text(r.name), 2nat),
                ("path="@ + quote::value_text(r.path), 0nat),
            ],
        )
    }
}

pub open spec fn sample_lines(rs: Seq<DpcmView>, k: nat) -> Seq<Seq<char>>
    decreases k,
{
    if k == 0 {
        Seq::empty()
    } else {
        sample_lines(rs, (k - 1) as nat).push(sample_text((k - 1) as nat, rs[k - 1]))
    }
}

pub open spec fn one_if(cond: bool, line: Seq<char>) -> Seq<Seq<char>> {
    if cond {
        seq![line]
    } else {
        Seq::empty()
    }
}

pub open spec fn driver_lines(s: SongView) -> Seq<Seq<char>> {
    match s.driver {
        Some((bin, sym)) => seq![driver_text(bin, sym, s.expansion)],
        None => Seq::empty(),
    }
}

/// Everything before the phrases.
pub open spec fn head_lines(s: SongView) -> Seq<Seq<char>> {
    seq!["# viper song file"@, song_line(s)] + one_if(has_meta(s), meta_line(s)) + driver_lines(s)
        + sample_lines(s.samples, s.samples.len()) + seq![Seq::empty()]
}

fn put_list(out: &mut Vec<char>, v: &Vec<u8>, sep: char)
    ensures
        final(out)@ == old(out)@ + joined(byte_items(v@), sep),
{
    let ghost start = out@;
    let ghost items = byte_items(v@);
    assert(start + joined(items.take(0), sep) =~= start);
    for i in 0..v.len()
        invariant
            items == byte_items(v@),
            out@ == start + joined(items.take(i as int), sep),
    {
        assert(items.take(i + 1).drop_last() =~= items.take(i as int));
        assert(items.take(i + 1).last() == text::hex2(v@[i as int] as nat));
        if i > 0 {
            out.push(sep);
        }
        text::put_hex2(out, v[i] as u64);
        if i == 0 {
            assert(items.take(1)[0] == text::hex2(v@[0] as nat));
            assert(items.take(0) =~= Seq::<Seq<char>>::empty());
        }
        assert(out@ =~= start + joined(items.take(i + 1), sep));
    }
    assert(items.take(v@.len() as int) =~= items);
}

fn put_order(out: &mut Vec<char>, v: &Vec<usize>)
    ensures
        final(out)@ == old(out)@ + joined(order_items(v@), ','),
{
    let ghost start = out@;
    let ghost items = order_items(v@);
    assert(start + joined(items.take(0), ',') =~= start);
    for i in 0..v.len()
        invariant
            items == order_items(v@),
            out@ == start + joined(items.take(i as int), ','),
    {
        assert(items.take(i + 1).drop_last() =~= items.take(i as int));
        assert(items.take(i + 1).last() == text::hex2(v@[i as int] as nat));
        if i > 0 {
            out.push(',');
        }
        text::put_hex2(out, v[i] as u64);
        if i == 0 {
            assert(items.take(1)[0] == text::hex2(v@[0] as nat));
            assert(items.take(0) =~= Seq::<Seq<char>>::empty());
        }
        assert(out@ =~= start + joined(items.take(i + 1), ','));
    }
    assert(items.take(v@.len() as int) =~= items);
}

fn put_song_line(out: &mut Vec<char>, s: &Song)
    ensures
        final(out)@ == old(out)@ + song_line(s@) + seq!['\n'],
{
    let ghost pre = out@;
    let ghost t0: Seq<(Seq<char>, nat)> = Seq::empty();
    assert(pre + laid(t0) =~= pre);
    let w1: Vec<char> = plain_word("@song");
    put_word(out, Ghost(pre), Ghost(t0), w1.as_slice(), 2);
    let ghost t1 = t0.push((w1@, 2nat));
    let w2: Vec<char> = dec_word("bpm=", s.bpm as u64);
    put_word(out, Ghost(pre), Ghost(t1), w2.as_slice(), 2);
    let ghost t2 = t1.push((w2@, 2nat));
    let w3: Vec<char> = dec_word("edit_step=", s.edit_step as u64);
    put_word(out, Ghost(pre), Ghost(t2), w3.as_slice(), 2);
    let ghost t3 = t2.push((w3@, 2nat));
    let w4: Vec<char> = hex_word("current=", s.current_phrase as u64);
    if s.arrangement.len() == 0 && s.order.len() > 0 {
        put_word(out, Ghost(pre), Ghost(t3), w4.as_slice(), 2);
        let ghost t4 = t3.push((w4@, 2nat));
        let mut w5: Vec<char> = plain_word("order=[");
        put_order(&mut w5, &s.order);
        text::put_str(&mut w5, "]");
        put_word(out, Ghost(pre), Ghost(t4), w5.as_slice(), 2);
        let ghost t5 = t4.push((w5@, 2nat));
        let w6: Vec<char> = hex_word("loop=", s.loop_pos as u64);
        put_word(out, Ghost(pre), Ghost(t5), w6.as_slice(), 0);
        proof {
            let ts = seq![
                (w1@, 2nat),
                (w2@, 2nat),
                (w3@, 2nat),
                (w4@, 2nat),
                (w5@, 2nat),
                (w6@, 0nat),
            ];
            assert(t5.push((w6@, 0nat)) =~= ts);
            assert(writes_order(s@));
            assert(song_line(s@) == laid(ts));
        }
    } else {
        put_word(out, Ghost(pre), Ghost(t3), w4.as_slice(), 0);
        proof {
            let ts = seq![(w1@, 2nat), (w2@, 2nat), (w3@, 2nat), (w4@, 0nat)];
            assert(t3.push((w4@, 0nat)) =~= ts);
            assert(!writes_order(s@));
            assert(song_line(s@) == laid(ts));
        }
    }
    out.push('\n');
    assert(out@ =~= pre + song_line(s@) + seq!['\n']);
}

fn put_meta_field(out: &mut Vec<char>, name: &str, v: &String)
    ensures
        final(out)@ == old(out)@ + meta_field(name@, v@),
{
    let ghost start = out@;
    if is_empty(v) {
        assert(start + meta_field(name@, v@) =~= start);
    } else {
        text::put_str(out, name);
        quote::put_quoted(out, v.as_str());
        assert(out@ =~= start + meta_field(name@, v@));
    }
}

fn is_empty(v: &String) -> (r: bool)
    ensures
        r == (v@.len() == 0),
{
    let c: Vec<char> = text::chars_of(v.as_str());
    c.len() == 0
}

fn put_sample_line(out: &mut Vec<char>, i: usize, r: &DpcmRef)
    ensures
        final(out)@ == old(out)@ + sample_text(i as nat, r@) + seq!['\n'],
{
    let ghost start = out@;
    text::put_str(out, "@dpcm");
    put_spaces(out, 1);
    text::put_hex2(out, i as u64);
    put_spaces(out, 2);
    text::put_str(out, "name=");
    quote::put_value(out, r.name.as_str());
    put_spaces(out, 2);
    text::put_str(out, "path=");
    quote::put_value(out, r.path.as_str());
    proof {
        reveal_with_fuel(laid, 6);
        assert(sp(0) =~= Seq::<char>::empty());
    }
    if r.rate != 15 {
        put_spaces(out, 2);
        text::put_str(out, "rate=");
        text::put_dec(out, r.rate as u64);
    }
    out.push('\n');
    assert(out@ =~= start + sample_text(i as nat, r@) + seq!['\n']);
}

fn put_driver_line(out: &mut Vec<char>, bin: &String, sym: &String, expansion: bool)
    ensures
        final(out)@ == old(out)@ + driver_text(bin@, sym@, expansion) + seq!['\n'],
{
    let ghost start = out@;
    text::put_str(out, "@driver");
    put_spaces(out, 2);
    text::put_str(out, "bin=");
    quote::put_value(out, bin.as_str());
    put_spaces(out, 2);
    text::put_str(out, "sym=");
    quote::put_value(out, sym.as_str());
    put_spaces(out, 2);
    text::put_str(out, "expansion=");
    if expansion {
        text::put_str(out, "vrc6");
    } else {
        text::put_str(out, "none");
    }
    out.push('\n');
    proof {
        reveal_with_fuel(laid, 5);
        assert(sp(0) =~= Seq::<char>::empty());
    }
    assert(out@ =~= start + driver_text(bin@, sym@, expansion) + seq!['\n']);
}

fn put_meta_line(out: &mut Vec<char>, s: &Song)
    ensures
        final(out)@ == old(out)@ + meta_line(s@) + seq!['\n'],
{
    let ghost here = out@;
    text::put_str(out, "@meta ");
    put_meta_field(out, " title=", &s.title);
    put_meta_field(out, " artist=", &s.artist);
    put_meta_field(out, " license=", &s.copyright);
    put_meta_field(out, " key=", &s.key_name);
    out.push('\n');
    assert(out@ =~= here + meta_line(s@) + seq!['\n']);
}

/// The sample lines, after the lines of `base`.
fn put_sample_lines(
    out: &mut Vec<char>,
    s: &Song,
    Ghost(start): Ghost<Seq<char>>,
    Ghost(base): Ghost<Seq<Seq<char>>>,
)
    requires
        old(out)@ == start + unlines(base),
    ensures
        final(out)@ == start + unlines(base + sample_lines(s@.samples, s@.samples.len())),
{
    assert(base + sample_lines(s@.samples, 0) =~= base);
    let mut i: usize = 0;
    while i < s.samples.len()
        invariant
            i <= s.samples@.len(),
            out@ == start + unlines(base + sample_lines(s@.samples, i as nat)),
        decreases s.samples@.len() - i,
    {
        assert(s@.samples[i as int] == s.samples@[i as int]@);
        put_sample_line(out, i, &s.samples[i]);
        proof {
            let ls = base + sample_lines(s@.samples, i as nat);
            let d = sample_text(i as nat, s@.samples[i as int]);
            lemma_unlines_push(ls, d);
            assert(out@ =~= start + unlines(ls.push(d)));
            assert(ls.push(d) =~= base + sample_lines(s@.samples, (i + 1) as nat));
        }
        i += 1;
    }
}

fn put_head(out: &mut Vec<char>, s: &Song)
    ensures
        final(out)@ == old(out)@ + unlines(head_lines(s@)),
{
    let ghost start = out@;
    let ghost mut ls: Seq<Seq<char>> = seq!["# viper song file"@];
    text::put_str(out, "# viper song file\n");
    proof {
        reveal_strlit("# viper song file\n");
        reveal_strlit("# viper song file");
        assert("# viper song file\n"@ =~= "# viper song file"@ + seq!['\n']);
        lemma_unlines_push(Seq::empty(), "# viper song file"@);
        assert(Seq::<Seq<char>>::empty().push("# viper song file"@) =~= ls);
        assert(out@ =~= start + unlines(ls));
    }
    put_song_line(out, s);
    proof {
        lemma_unlines_push(ls, song_line(s@));
        assert(out@ =~= start + unlines(ls.push(song_line(s@))));
        ls = ls.push(song_line(s@));
        assert(ls =~= seq!["# viper song file"@, song_line(s@)]);
    }
    if !is_empty(&s.title) || !is_empty(&s.artist) || !is_empty(&s.copyright) || !is_empty(
        &s.key_name,
    ) {
        put_meta_line(out, s);
        proof {
            lemma_unlines_push(ls, meta_line(s@));
            assert(out@ =~= start + unlines(ls.push(meta_line(s@))));
            assert(ls.push(meta_line(s@)) =~= ls + one_if(true, meta_line(s@)));
            ls = ls + one_if(true, meta_line(s@));
        }
    } else {
        proof {
            assert(ls =~= ls + one_if(false, meta_line(s@)));
        }
    }
    let ghost head = ls;
    match &s.driver {
        Some((bin, sym)) => {
            put_driver_line(out, bin, sym, s.expansion);
            proof {
                let d = driver_text(bin@, sym@, s.expansion);
                lemma_unlines_push(ls, d);
                assert(out@ =~= start + unlines(ls.push(d)));
                assert(ls.push(d) =~= ls + driver_lines(s@));
                ls = ls + driver_lines(s@);
            }
        },
        None => {
            proof {
                assert(ls =~= ls + driver_lines(s@));
            }
        },
    }
    let ghost base = ls;
    put_sample_lines(out, s, Ghost(start), Ghost(base));
    proof {
        ls = base + sample_lines(s@.samples, s@.samples.len());
    }
    out.push('\n');
    proof {
        lemma_unlines_push(ls, Seq::empty());
        assert(out@ =~= start + unlines(ls.push(Seq::empty())));
        assert(ls.push(Seq::empty()) =~= head_lines(s@));
    }
}

// ---------------------------------------------------------------- phrases

/// A cell and the spaces that fill its column.
pub open spec fn column(c: Cell, gap: nat) -> (Seq<char>, nat) {
    (vip::cell_text(c), gap + pad(vip::cell_text(c).len(), 14))
}

pub open spec fn row_text(s: nat, row: Seq<Cell>) -> Seq<char> {
    sp(2) + laid(
        seq![
            (text::hex2(s), 7nat),
            column(row[0], 2),
            column(row[1], 2),
            column(row[2], 2),
            column(row[3], 2),
            column(row[4], 0),
        ],
    )
}

/// The first `k` rows of a phrase.
pub open spec fn row_lines(g: Seq<Seq<Cell>>, k: nat) -> Seq<Seq<char>>
    decreases k,
{
    if k == 0 {
        Seq::empty()
    } else {
        row_lines(g, (k - 1) as nat).push(row_text((k - 1) as nat, g[k - 1]))
    }
}

pub open spec fn index_line(dir: Seq<char>, i: nat) -> Seq<char> {
    laid(seq![(dir, 1nat), (text::hex2(i), 0nat)])
}

pub open spec fn column_heads() -> Seq<char> {
    "  # step   PU1             PU2             TRI             NOI             DPCM"@
}

pub open spec fn phrase_block(i: nat, g: Seq<Seq<Cell>>) -> Seq<Seq<char>> {
    seq![index_line("@phrase"@, i), column_heads()] + row_lines(g, STEPS_PER_PHRASE as nat) + seq![
        Seq::empty(),
    ]
}

pub open spec fn phrase_lines(ps: Seq<Seq<Seq<Cell>>>, k: nat) -> Seq<Seq<char>>
    decreases k,
{
    if k == 0 {
        Seq::empty()
    } else {
        phrase_lines(ps, (k - 1) as nat) + phrase_block((k - 1) as nat, ps[k - 1])
    }
}

fn put_index_line(out: &mut Vec<char>, dir: &str, i: usize)
    ensures
        final(out)@ == old(out)@ + index_line(dir@, i as nat) + seq!['\n'],
{
    let ghost start = out@;
    text::put_str(out, dir);
    put_spaces(out, 1);
    text::put_hex2(out, i as u64);
    out.push('\n');
    proof {
        reveal_with_fuel(laid, 3);
        assert(sp(0) =~= Seq::<char>::empty());
    }
    assert(out@ =~= start + index_line(dir@, i as nat) + seq!['\n']);
}

fn put_column(out: &mut Vec<char>, c: Cell, gap: usize)
    requires
        gap <= 2,
    ensures
        final(out)@ == old(out)@ + column(c, gap as nat).0 + sp(column(c, gap as nat).1),
{
    let mut w: Vec<char> = Vec::new();
    vip::put_cell_text(&mut w, c);
    assert(w@ =~= vip::cell_text(c));
    text::put(out, w.as_slice());
    let fill: usize = if w.len() < 14 {
        14 - w.len()
    } else {
        0
    };
    put_spaces(out, gap + fill);
}

fn put_row(out: &mut Vec<char>, s: usize, row: &[Cell; CHANNELS])
    ensures
        final(out)@ == old(out)@ + row_text(s as nat, row@) + seq!['\n'],
{
    let ghost start = out@;
    put_spaces(out, 2);
    let ghost pre = out@;
    let ghost mut ts: Seq<(Seq<char>, nat)> = Seq::empty();
    assert(pre + laid(ts) =~= pre);
    text::put_hex2(out, s as u64);
    put_spaces(out, 7);
    proof {
        lemma_laid_grow(pre, ts, text::hex2(s as nat), 7);
        ts = ts.push((text::hex2(s as nat), 7));
    }
    let mut c: usize = 0;
    while c < 4
        invariant
            c <= 4,
            out@ == pre + laid(ts),
            ts == seq![(text::hex2(s as nat), 7nat)] + Seq::new(
                c as nat,
                |k: int| column(row@[k], 2),
            ),
        decreases 4 - c,
    {
        put_column(out, row[c], 2);
        proof {
            let (w, gap) = column(row@[c as int], 2);
            lemma_laid_grow(pre, ts, w, gap);
            ts = ts.push((w, gap));
            assert(ts =~= seq![(text::hex2(s as nat), 7nat)] + Seq::new(
                (c + 1) as nat,
                |k: int| column(row@[k], 2),
            ));
        }
        c += 1;
    }
    put_column(out, row[4], 0);
    proof {
        let (w, gap) = column(row@[4], 0);
        lemma_laid_grow(pre, ts, w, gap);
        ts = ts.push((w, gap));
        assert(ts =~= seq![
            (text::hex2(s as nat), 7nat),
            column(row@[0], 2),
            column(row@[1], 2),
            column(row@[2], 2),
            column(row@[3], 2),
            column(row@[4], 0),
        ]);
        lemma_two_parts(start, sp(2), laid(ts));
    }
    out.push('\n');
    assert(out@ =~= start + row_text(s as nat, row@) + seq!['\n']);
}

fn put_phrase(out: &mut Vec<char>, i: usize, p: &Phrase)
    ensures
        final(out)@ == old(out)@ + unlines(phrase_block(i as nat, p@)),
{
    let ghost start = out@;
    put_index_line(out, "@phrase", i);
    text::put_str(
        out,
        "  # step   PU1             PU2             TRI             NOI             DPCM",
    );
    out.push('\n');
    let ghost base = seq![index_line("@phrase"@, i as nat), column_heads()];
    let ghost mut ls: Seq<Seq<char>> = base;
    proof {
        lemma_unlines_push(Seq::empty(), base[0]);
        lemma_unlines_push(Seq::empty().push(base[0]), base[1]);
        assert(Seq::empty().push(base[0]).push(base[1]) =~= base);
        assert(out@ =~= start + unlines(ls));
    }
    assert(base + row_lines(p@, 0) =~= base);
    for s in 0..STEPS_PER_PHRASE
        invariant
            ls == base + row_lines(p@, s as nat),
            out@ == start + unlines(ls),
    {
        assert(p@[s as int] == p.cells@[s as int]@);
        put_row(out, s, &p.cells[s]);
        proof {
            let d = row_text(s as nat, p@[s as int]);
            lemma_unlines_push(ls, d);
            assert(out@ =~= start + unlines(ls.push(d)));
            assert(ls.push(d) =~= base + row_lines(p@, (s + 1) as nat));
            ls = ls.push(d);
        }
    }
    out.push('\n');
    proof {
        lemma_unlines_push(ls, Seq::empty());
        assert(out@ =~= start + unlines(ls.push(Seq::empty())));
        assert(ls.push(Seq::empty()) =~= phrase_block(i as nat, p@));
    }
}

// ---------------------------------------------------------------- chains and arrangement

pub open spec fn chain_head(i: nat, name: Option<Seq<char>>) -> Seq<char> {
    match name {
        Some(n) => if n.len() > 0 {
            laid(seq![("@chain"@, 1nat), (text::hex2(i), 2nat), ("name="@ + quote::quote(n), 0nat)])
        } else {
            index_line("@chain"@, i)
        },
        None => index_line("@chain"@, i),
    }
}

/// A row of bytes; an empty list takes no row.
pub open spec fn byte_row(v: Seq<u8>) -> Seq<Seq<char>> {
    one_if(v.len() > 0, sp(2) + joined(byte_items(v), ' '))
}

pub open spec fn chain_lines(cs: Seq<ChainView>, k: nat) -> Seq<Seq<char>>
    decreases k,
{
    if k == 0 {
        Seq::empty()
    } else {
        chain_lines(cs, (k - 1) as nat).push(chain_head((k - 1) as nat, cs[k - 1].name)) + byte_row(
            cs[k - 1].phrases,
        )
    }
}

pub open spec fn has_chains(s: SongView) -> bool {
    s.chains.len() > 0 || s.arrangement.len() > 0
}

pub open spec fn arrangement_line(at: nat) -> Seq<char> {
    laid(seq![("@arrangement"@, 2nat), ("loop="@ + text::hex2(at), 0nat)])
}

/// The chains, every one of them, and the arrangement.
pub open spec fn arrangement_lines(s: SongView) -> Seq<Seq<char>> {
    if has_chains(s) {
        chain_lines(s.chains, s.chains.len()) + seq![arrangement_line(s.arr_loop as nat)]
            + byte_row(s.arrangement) + seq![Seq::empty()]
    } else {
        Seq::empty()
    }
}

fn put_byte_row(out: &mut Vec<char>, v: &Vec<u8>)
    ensures
        final(out)@ == old(out)@ + unlines(byte_row(v@)),
{
    let ghost start = out@;
    if v.len() > 0 {
        put_spaces(out, 2);
        put_list(out, v, ' ');
        out.push('\n');
        proof {
            let d = sp(2) + joined(byte_items(v@), ' ');
            lemma_unlines_push(Seq::empty(), d);
            assert(Seq::empty().push(d) =~= byte_row(v@));
            assert(out@ =~= start + unlines(byte_row(v@)));
        }
    } else {
        assert(start + unlines(byte_row(v@)) =~= start);
    }
}

fn put_chain_head(out: &mut Vec<char>, i: usize, c: &Chain)
    ensures
        final(out)@ == old(out)@ + chain_head(i as nat, c@.name) + seq!['\n'],
{
    let ghost start = out@;
    match &c.name {
        Some(n) => {
            if !is_empty(n) {
                text::put_str(out, "@chain");
                put_spaces(out, 1);
                text::put_hex2(out, i as u64);
                put_spaces(out, 2);
                text::put_str(out, "name=");
                quote::put_quoted(out, n);
                out.push('\n');
                proof {
                    reveal_with_fuel(laid, 4);
                    assert(sp(0) =~= Seq::<char>::empty());
                }
                assert(out@ =~= start + chain_head(i as nat, c@.name) + seq!['\n']);
                return;
            }
        },
        None => {},
    }
    put_index_line(out, "@chain", i);
}

fn put_arrangement(out: &mut Vec<char>, s: &Song)
    ensures
        final(out)@ == old(out)@ + unlines(arrangement_lines(s@)),
{
    let ghost start = out@;
    if s.chains.len() == 0 && s.arrangement.len() == 0 {
        assert(s@.chains.len() == 0);
        assert(start + unlines(arrangement_lines(s@)) =~= start);
        return;
    }
    let ghost mut ls: Seq<Seq<char>> = Seq::empty();
    assert(start + unlines(ls) =~= start);
    let mut i: usize = 0;
    while i < s.chains.len()
        invariant
            i <= s.chains@.len(),
            ls == chain_lines(s@.chains, i as nat),
            out@ == start + unlines(ls),
        decreases s.chains@.len() - i,
    {
        assert(s@.chains[i as int] == s.chains@[i as int]@);
        put_chain_head(out, i, &s.chains[i]);
        put_byte_row(out, &s.chains[i].phrases);
        proof {
            let d = chain_head(i as nat, s@.chains[i as int].name);
            let b = byte_row(s@.chains[i as int].phrases);
            lemma_unlines_push(ls, d);
            lemma_unlines_add(ls.push(d), b);
            assert(out@ =~= start + unlines(ls.push(d) + b));
            ls = ls.push(d) + b;
        }
        i += 1;
    }
    assert(s@.chains.len() == s.chains@.len());
    let ghost before = ls;
    text::put_str(out, "@arrangement");
    put_spaces(out, 2);
    text::put_str(out, "loop=");
    text::put_hex2(out, s.arr_loop as u64);
    out.push('\n');
    put_byte_row(out, &s.arrangement);
    out.push('\n');
    proof {
        let d = arrangement_line(s.arr_loop as nat);
        reveal_with_fuel(laid, 3);
        assert(sp(0) =~= Seq::<char>::empty());
        lemma_unlines_push(ls, d);
        lemma_unlines_add(ls.push(d), byte_row(s@.arrangement));
        let all = ls.push(d) + byte_row(s@.arrangement);
        lemma_unlines_push(all, Seq::empty());
        assert(out@ =~= start + unlines(all.push(Seq::empty())));
        assert(all.push(Seq::empty()) =~= arrangement_lines(s@));
    }
}

// ---------------------------------------------------------------- groove, lengths, instruments

pub open spec fn groove_items(g: Seq<i16>) -> Seq<Seq<char>> {
    g.map_values(|v: i16| text::signed_dec(v as int))
}

pub open spec fn has_groove(g: Seq<i16>) -> bool {
    exists|i: int| 0 <= i < 16 && g[i] != 0
}

/// Only a groove off straight time is written.
pub open spec fn groove_lines(g: Seq<i16>) -> Seq<Seq<char>> {
    if has_groove(g) {
        seq!["@groove"@, sp(2) + joined(groove_items(g), ' '), Seq::empty()]
    } else {
        Seq::empty()
    }
}

pub open spec fn full_length(l: Seq<u8>) -> bool {
    l == Seq::new(CHANNELS as nat, |i: int| 16u8)
}

pub open spec fn length_line(l: Seq<u8>) -> Seq<char> {
    laid(
        seq![
            ("@length"@, 2nat),
            ("pu1="@ + text::dec(l[0] as nat), 2nat),
            ("pu2="@ + text::dec(l[1] as nat), 2nat),
            ("tri="@ + text::dec(l[2] as nat), 2nat),
            ("noi="@ + text::dec(l[3] as nat), 2nat),
            ("dpcm="@ + text::dec(l[4] as nat), 0nat),
        ],
    )
}

/// Only lengths short of the whole phrase are written.
pub open spec fn length_lines(l: Seq<u8>) -> Seq<Seq<char>> {
    if full_length(l) {
        Seq::empty()
    } else {
        seq![length_line(l), Seq::empty()]
    }
}

/// A numbered field, and the spaces after it.
pub open spec fn ms_field(key: Seq<char>, n: nat, width: nat) -> (Seq<char>, nat) {
    (key + text::dec(n), 2 + pad(text::dec(n).len(), width))
}

pub open spec fn instr_text(i: nat, inst: Instrument) -> Seq<char> {
    laid(
        seq![
            ("@instr"@, 1nat),
            (text::hex2(i), 2nat),
            ms_field("a="@, inst.attack_ms as nat, 4),
            ms_field("d="@, inst.decay_ms as nat, 4),
            ("s="@ + text::milli_text(inst.sustain as int), 2nat),
            ms_field("r="@, inst.release_ms as nat, 5),
            ("duty="@ + text::milli_text(inst.duty as int), 2nat),
            ("vol="@ + text::milli_text(inst.volume as int), 0nat),
        ],
    )
}

pub open spec fn instr_lines(is: Seq<Instrument>, k: nat) -> Seq<Seq<char>>
    decreases k,
{
    if k == 0 {
        Seq::empty()
    } else {
        instr_lines(is, (k - 1) as nat).push(instr_text((k - 1) as nat, is[k - 1]))
    }
}

fn put_groove(out: &mut Vec<char>, s: &Song)
    ensures
        final(out)@ == old(out)@ + unlines(groove_lines(s@.groove)),
{
    let ghost start = out@;
    if !s.has_groove() {
        assert(!has_groove(s@.groove));
        assert(start + unlines(groove_lines(s@.groove)) =~= start);
        return;
    }
    assert(has_groove(s@.groove)) by {
        let i = choose|i: int| 0 <= i < 16 && s@.groove[i] != 0;
        assert(s@.groove[i] != 0);
    }
    text::put_str(out, "@groove");
    out.push('\n');
    put_spaces(out, 2);
    let ghost items = groove_items(s@.groove);
    let ghost here = out@;
    assert(here + joined(items.take(0), ' ') =~= here);
    for i in 0..16usize
        invariant
            items == groove_items(s@.groove),
            out@ == here + joined(items.take(i as int), ' '),
    {
        assert(items.take(i + 1).drop_last() =~= items.take(i as int));
        assert(items.take(i + 1).last() == text::signed_dec(s@.groove[i as int] as int));
        if i > 0 {
            out.push(' ');
        }
        text::put_int(out, s.groove[i] as i64);
        if i == 0 {
            assert(items.take(1)[0] == text::signed_dec(s@.groove[0] as int));
            assert(items.take(0) =~= Seq::<Seq<char>>::empty());
        }
        assert(out@ =~= here + joined(items.take(i + 1), ' '));
    }
    assert(items.take(16) =~= items);
    out.push('\n');
    out.push('\n');
    proof {
        let b = sp(2) + joined(items, ' ');
        let none = Seq::<Seq<char>>::empty();
        lemma_unlines_push(none, "@groove"@);
        lemma_unlines_push(none.push("@groove"@), b);
        lemma_unlines_push(none.push("@groove"@).push(b), Seq::empty());
        assert(none.push("@groove"@).push(b).push(Seq::empty()) =~= groove_lines(s@.groove));
        assert(out@ =~= start + unlines(groove_lines(s@.groove)));
    }
}

fn put_lengths(out: &mut Vec<char>, s: &Song)
    ensures
        final(out)@ == old(out)@ + unlines(length_lines(s@.channel_length)),
{
    let ghost start = out@;
    let l: [u8; CHANNELS] = s.channel_length;
    if l[0] == 16 && l[1] == 16 && l[2] == 16 && l[3] == 16 && l[4] == 16 {
        assert(l@ =~= Seq::new(CHANNELS as nat, |i: int| 16u8));
        assert(start + unlines(length_lines(l@)) =~= start);
        return;
    }
    assert(!full_length(l@)) by {
        if full_length(l@) {
            assert(l@[0] == 16 && l@[1] == 16 && l@[2] == 16 && l@[3] == 16 && l@[4] == 16);
        }
    }
    let ghost t0: Seq<(Seq<char>, nat)> = Seq::empty();
    assert(start + laid(t0) =~= start);
    let w0: Vec<char> = plain_word("@length");
    put_word(out, Ghost(start), Ghost(t0), w0.as_slice(), 2);
    let ghost t1 = t0.push((w0@, 2nat));
    let w1: Vec<char> = dec_word("pu1=", l[0] as u64);
    put_word(out, Ghost(start), Ghost(t1), w1.as_slice(), 2);
    let ghost t2 = t1.push((w1@, 2nat));
    let w2: Vec<char> = dec_word("pu2=", l[1] as u64);
    put_word(out, Ghost(start), Ghost(t2), w2.as_slice(), 2);
    let ghost t3 = t2.push((w2@, 2nat));
    let w3: Vec<char> = dec_word("tri=", l[2] as u64);
    put_word(out, Ghost(start), Ghost(t3), w3.as_slice(), 2);
    let ghost t4 = t3.push((w3@, 2nat));
    let w4: Vec<char> = dec_word("noi=", l[3] as u64);
    put_word(out, Ghost(start), Ghost(t4), w4.as_slice(), 2);
    let ghost t5 = t4.push((w4@, 2nat));
    let w5: Vec<char> = dec_word("dpcm=", l[4] as u64);
    put_word(out, Ghost(start), Ghost(t5), w5.as_slice(), 0);
    out.push('\n');
    proof {
        assert(t5.push((w5@, 0nat)) =~= seq![
            (w0@, 2nat),
            (w1@, 2nat),
            (w2@, 2nat),
            (w3@, 2nat),
            (w4@, 2nat),
            (w5@, 0nat),
        ]);
        assert(out@ =~= start + length_line(l@) + seq!['\n']);
    }
    out.push('\n');
    proof {
        let none = Seq::<Seq<char>>::empty();
        lemma_unlines_push(none, length_line(l@));
        lemma_unlines_push(none.push(length_line(l@)), Seq::empty());
        assert(none.push(length_line(l@)).push(Seq::empty()) =~= length_lines(l@));
        assert(out@ =~= start + unlines(length_lines(l@)));
    }
}

fn put_ms_field(out: &mut Vec<char>, key: &str, n: u16, width: usize)
    requires
        width <= 5,
    ensures
        final(out)@ == old(out)@ + ms_field(key@, n as nat, width as nat).0 + sp(
            ms_field(key@, n as nat, width as nat).1,
        ),
{
    let ghost start = out@;
    text::put_str(out, key);
    let v: Vec<char> = text::numeral_of(n as u128, 10);
    text::put(out, v.as_slice());
    let fill: usize = if v.len() < width {
        width - v.len()
    } else {
        0
    };
    put_spaces(out, 2 + fill);
    assert(out@ =~= start + ms_field(key@, n as nat, width as nat).0 + sp(
        ms_field(key@, n as nat, width as nat).1,
    ));
}

fn put_milli_field(out: &mut Vec<char>, key: &str, m: i32)
    ensures
        final(out)@ == old(out)@ + (key@ + text::milli_text(m as int)),
{
    let ghost start = out@;
    text::put_str(out, key);
    text::put_milli(out, m);
    proof {
        lemma_two_parts(start, key@, text::milli_text(m as int));
    }
}

fn put_instr_line(out: &mut Vec<char>, i: usize, inst: &Instrument)
    ensures
        final(out)@ == old(out)@ + instr_text(i as nat, *inst) + seq!['\n'],
{
    let ghost pre = out@;
    let ghost t0: Seq<(Seq<char>, nat)> = Seq::empty();
    assert(pre + laid(t0) =~= pre);
    text::put_str(out, "@instr");
    put_spaces(out, 1);
    let ghost t1 = t0.push(("@instr"@, 1nat));
    proof {
        lemma_laid_grow(pre, t0, "@instr"@, 1);
    }
    text::put_hex2(out, i as u64);
    put_spaces(out, 2);
    let ghost t2 = t1.push((text::hex2(i as nat), 2nat));
    proof {
        lemma_laid_grow(pre, t1, text::hex2(i as nat), 2);
    }
    put_ms_field(out, "a=", inst.attack_ms, 4);
    let ghost f3 = ms_field("a="@, inst.attack_ms as nat, 4);
    let ghost t3 = t2.push(f3);
    proof {
        lemma_laid_grow(pre, t2, f3.0, f3.1);
    }
    put_ms_field(out, "d=", inst.decay_ms, 4);
    let ghost f4 = ms_field("d="@, inst.decay_ms as nat, 4);
    let ghost t4 = t3.push(f4);
    proof {
        lemma_laid_grow(pre, t3, f4.0, f4.1);
    }
    put_milli_field(out, "s=", inst.sustain);
    put_spaces(out, 2);
    let ghost w5 = "s="@ + text::milli_text(inst.sustain as int);
    let ghost t5 = t4.push((w5, 2nat));
    proof {
        lemma_laid_grow(pre, t4, w5, 2);
    }
    put_ms_field(out, "r=", inst.release_ms, 5);
    let ghost f6 = ms_field("r="@, inst.release_ms as nat, 5);
    let ghost t6 = t5.push(f6);
    proof {
        lemma_laid_grow(pre, t5, f6.0, f6.1);
    }
    put_milli_field(out, "duty=", inst.duty);
    put_spaces(out, 2);
    let ghost w7 = "duty="@ + text::milli_text(inst.duty as int);
    let ghost t7 = t6.push((w7, 2nat));
    proof {
        lemma_laid_grow(pre, t6, w7, 2);
    }
    put_milli_field(out, "vol=", inst.volume);
    let ghost w8 = "vol="@ + text::milli_text(inst.volume as int);
    let ghost t8 = t7.push((w8, 0nat));
    proof {
        lemma_laid_grow(pre, t7, w8, 0);
        assert(sp(0) =~= Seq::<char>::empty());
        assert(pre + laid(t7) + w8 + sp(0) =~= pre + laid(t7) + w8);
        assert(t8 =~= seq![
            ("@instr"@, 1nat),
            (text::hex2(i as nat), 2nat),
            f3,
            f4,
            (w5, 2nat),
            f6,
            (w7, 2nat),
            (w8, 0nat),
        ]);
    }
    out.push('\n');
    assert(out@ =~= pre + instr_text(i as nat, *inst) + seq!['\n']);
}

// ---------------------------------------------------------------- the whole song

/// The lines of a song's text.
pub open spec fn vip_lines(s: SongView) -> Seq<Seq<char>> {
    head_lines(s) + phrase_lines(s.phrases, s.phrases.len()) + arrangement_lines(s) + groove_lines(
        s.groove,
    ) + length_lines(s.channel_length) + instr_lines(s.instruments, INSTRUMENTS as nat)
}

/// The text of a song.
pub open spec fn vip_text(s: SongView) -> Seq<char> {
    unlines(vip_lines(s))
}

/// Writes a song as a `.vip` text.
pub fn to_vip(s: &Song) -> (r: String)
    ensures
        r@ == vip_text(s@),
{
    let mut out: Vec<char> = Vec::new();
    put_head(&mut out, s);
    let ghost mut ls: Seq<Seq<char>> = head_lines(s@);
    let ghost head = ls;
    assert(out@ =~= unlines(ls));
    assert(head + phrase_lines(s@.phrases, 0) =~= head);
    let mut i: usize = 0;
    while i < s.phrases.len()
        invariant
            i <= s.phrases@.len(),
            ls == head + phrase_lines(s@.phrases, i as nat),
            out@ == unlines(ls),
        decreases s.phrases@.len() - i,
    {
        assert(s@.phrases[i as int] == s.phrases@[i as int]@);
        put_phrase(&mut out, i, &s.phrases[i]);
        proof {
            let b = phrase_block(i as nat, s@.phrases[i as int]);
            lemma_unlines_add(ls, b);
            assert(ls + b =~= head + phrase_lines(s@.phrases, (i + 1) as nat));
            ls = ls + b;
        }
        i += 1;
    }
    assert(s@.phrases.len() == s.phrases@.len());
    put_arrangement(&mut out, s);
    put_groove(&mut out, s);
    put_lengths(&mut out, s);
    proof {
        lemma_unlines_add(ls, arrangement_lines(s@));
        ls = ls + arrangement_lines(s@);
        lemma_unlines_add(ls, groove_lines(s@.groove));
        ls = ls + groove_lines(s@.groove);
        lemma_unlines_add(ls, length_lines(s@.channel_length));
        ls = ls + length_lines(s@.channel_length);
        assert(out@ =~= unlines(ls));
    }
    let ghost base = ls;
    assert(base + instr_lines(s@.instruments, 0) =~= base);
    for k in 0..INSTRUMENTS
        invariant
            ls == base + instr_lines(s@.instruments, k as nat),
            out@ == unlines(ls),
    {
        put_instr_line(&mut out, k, &s.instruments[k]);
        proof {
            let d = instr_text(k as nat, s@.instruments[k as int]);
            lemma_unlines_push(ls, d);
            assert(ls.push(d) =~= base + instr_lines(s@.instruments, (k + 1) as nat));
            ls = ls.push(d);
        }
    }
    assert(ls == vip_lines(s@));
    text::string_of(out.as_slice())
}

} // verus!
