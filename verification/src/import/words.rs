//! What is wrong with a map file, in words: the line and its directive, and
//! the word that is at fault.

use vstd::prelude::*;

use crate::import::vmap;
use crate::import::vmap::{MapError, MapFault};
use crate::style::words;
use crate::text;

verus! {

/// The first channel from `i` on that is none.
pub open spec fn bad_channel(ps: Seq<(Seq<char>, Seq<char>)>, i: nat) -> Seq<char>
    decreases ps.len() - i,
{
    if i >= ps.len() {
        Seq::empty()
    } else {
        let (k, v) = ps[i as int];
        if k == "ch"@ && vmap::channel_value(v) is Err {
            v
        } else {
            bad_channel(ps, i + 1)
        }
    }
}

/// The first noise target from `i` on that has this fault.
pub open spec fn bad_noise(ps: Seq<(Seq<char>, Seq<char>)>, f: MapFault, i: nat) -> Seq<char>
    decreases ps.len() - i,
{
    if i >= ps.len() {
        Seq::empty()
    } else {
        let (k, v) = ps[i as int];
        if k == "noi"@ && (match vmap::noise_target(v) {
            Err(e) => e == f,
            Ok(_) => false,
        }) {
            v
        } else {
            bad_noise(ps, f, i + 1)
        }
    }
}

/// A fault that names no word.
pub open spec fn plain_words(f: MapFault) -> Seq<char> {
    match f {
        MapFault::NotADirective => "expected an @directive"@,
        MapFault::UnknownDirective => "unknown directive"@,
        MapFault::BadNumber => "bad number"@,
        MapFault::NeedsMidi => "needs midi="@,
        MapFault::NeedsChannel => "needs ch= or drums=1"@,
        MapFault::DrumForm => "want KEYS dpcm=N | noi=NOTE/INSTR"@,
        MapFault::NeedsTarget => "needs dpcm= or noi="@,
        MapFault::InstrumentRange => "instrument out of range"@,
        MapFault::SampleForm => "want NN name= path= [rate=]"@,
        MapFault::NoTracks => "map has no @track lines"@,
        _ => ""@,
    }
}

/// A fault in words, given what the line's directive was given.
pub open spec fn fault_words(f: MapFault, args: Seq<char>) -> Seq<char> {
    match f {
        MapFault::UnknownChannel => "unknown channel "@ + text::debug_text(
            bad_channel(text::pairs(args), 0),
        ),
        MapFault::NoiseForm => "noi= wants NOTE/INSTR, got "@ + text::debug_text(
            bad_noise(text::pairs(words::rest_of(args)), f, 0),
        ),
        MapFault::BadNote => {
            let v = bad_noise(text::pairs(words::rest_of(args)), f, 0);
            "bad note "@ + text::debug_text(v.take(text::char_index(v, '/') as int))
        },
        _ => plain_words(f),
    }
}

/// What is said of a text that is no map.
pub open spec fn told(t: Seq<char>, e: MapError) -> Seq<char> {
    let ls = text::lines(t);
    if e.line == 0 {
        plain_words(e.fault)
    } else if e.fault == MapFault::NotADirective || e.line > ls.len() {
        "line "@ + text::dec(e.line as nat) + ": "@ + plain_words(e.fault)
    } else {
        let (dir, args) = words::directive_of(ls[e.line - 1]);
        "line "@ + text::dec(e.line as nat) + ": @"@ + dir + ": "@ + fault_words(e.fault, args)
    }
}

fn find_bad_channel(args: &[char]) -> (r: Vec<char>)
    ensures
        r@ == bad_channel(text::pairs(args@), 0),
{
    let ps: Vec<(&[char], &[char])> = text::kv(args);
    let ghost all = text::pairs(args@);
    assert(all.len() == ps@.len());
    let mut i: usize = 0;
    while i < ps.len()
        invariant
            i <= ps@.len(),
            all == text::pairs(args@),
            all == text::pair_views(ps@),
            all.len() == ps@.len(),
            bad_channel(all, 0) == bad_channel(all, i as nat),
        decreases ps@.len() - i,
    {
        let (k, v): (&[char], &[char]) = ps[i];
        assert(all[i as int] == (k@, v@));
        if text::is_lit(k, "ch") && vmap::read_channel(v).is_err() {
            return text::copy_of(v);
        }
        i += 1;
    }
    Vec::new()
}

fn find_bad_noise(args: &[char], f: MapFault) -> (r: Vec<char>)
    ensures
        r@ == bad_noise(text::pairs(words::rest_of(args@)), f, 0),
{
    let (_, rest): (&[char], &[char]) = words::cut_first(args);
    let ps: Vec<(&[char], &[char])> = text::kv(rest);
    let ghost all = text::pairs(rest@);
    assert(all.len() == ps@.len());
    let mut i: usize = 0;
    while i < ps.len()
        invariant
            i <= ps@.len(),
            rest@ == words::rest_of(args@),
            all == text::pairs(rest@),
            all == text::pair_views(ps@),
            all.len() == ps@.len(),
            bad_noise(all, f, 0) == bad_noise(all, f, i as nat),
        decreases ps@.len() - i,
    {
        let (k, v): (&[char], &[char]) = ps[i];
        assert(all[i as int] == (k@, v@));
        if text::is_lit(k, "noi") {
            match vmap::read_noise_target(v) {
                Err(e) => {
                    if e == f {
                        return text::copy_of(v);
                    }
                },
                Ok(_) => {},
            }
        }
        i += 1;
    }
    Vec::new()
}

fn find_plain(f: MapFault) -> (r: &'static str)
    ensures
        r@ == plain_words(f),
{
    match f {
        MapFault::NotADirective => "expected an @directive",
        MapFault::UnknownDirective => "unknown directive",
        MapFault::BadNumber => "bad number",
        MapFault::NeedsMidi => "needs midi=",
        MapFault::NeedsChannel => "needs ch= or drums=1",
        MapFault::DrumForm => "want KEYS dpcm=N | noi=NOTE/INSTR",
        MapFault::NeedsTarget => "needs dpcm= or noi=",
        MapFault::InstrumentRange => "instrument out of range",
        MapFault::SampleForm => "want NN name= path= [rate=]",
        MapFault::NoTracks => "map has no @track lines",
        _ => "",
    }
}

fn put_fault(out: &mut Vec<char>, f: MapFault, args: &[char])
    ensures
        final(out)@ == old(out)@ + fault_words(f, args@),
{
    let ghost start = out@;
    match f {
        MapFault::UnknownChannel => {
            text::put_str(out, "unknown channel ");
            words::put_debug(out, &find_bad_channel(args));
        },
        MapFault::NoiseForm => {
            text::put_str(out, "noi= wants NOTE/INSTR, got ");
            words::put_debug(out, &find_bad_noise(args, f));
        },
        MapFault::BadNote => {
            let v: Vec<char> = find_bad_noise(args, f);
            let k: usize = text::find_char(v.as_slice(), '/');
            text::put_str(out, "bad note ");
            words::put_debug(out, &text::copy_of(text::head(v.as_slice(), k)));
        },
        _ => {
            text::put_str(out, find_plain(f));
        },
    }
    assert(out@ =~= start + fault_words(f, args@));
}

/// Says what is wrong with a text that is no map.
pub fn explain(source: &str, e: MapError) -> (r: String)
    ensures
        r@ == told(source@, e),
{
    if e.line == 0 {
        return text::string_of(text::chars_of(find_plain(e.fault)).as_slice());
    }
    let chars: Vec<char> = text::chars_of(source);
    let ls: Vec<&[char]> = text::split_lines(chars.as_slice());
    let ghost all = text::lines(source@);
    assert(all == text::views(ls@));
    assert(all.len() == ls@.len());
    let mut m: Vec<char> = text::chars_of("line ");
    text::put_dec(&mut m, e.line as u64);
    if e.fault == MapFault::NotADirective || e.line > ls.len() {
        text::put_str(&mut m, ": ");
        text::put_str(&mut m, find_plain(e.fault));
        assert(m@ =~= told(source@, e));
        return text::string_of(m.as_slice());
    }
    assert(all[e.line - 1] == ls@[e.line - 1]@);
    let (dir, args): (Vec<char>, Vec<char>) = words::copy_directive(ls[e.line - 1]);
    text::put_str(&mut m, ": @");
    text::put(&mut m, dir.as_slice());
    text::put_str(&mut m, ": ");
    put_fault(&mut m, e.fault, args.as_slice());
    assert(m@ =~= told(source@, e));
    text::string_of(m.as_slice())
}

} // verus!
