//! What chord symbols mean: the intervals that a quality names, and the steps
//! of the scale that a numeral stands on.

use vstd::prelude::*;

use crate::gen;
use crate::gen::chord;
use crate::gen::chord::ChordView;
use crate::gen::Mode;
use crate::style::ChordSym;

verus! {

/// The qualities tell themselves apart by their letters.
proof fn lemma_qualities()
    ensures
        "7"@.len() == 1 && "7"@[0] == '7',
        "6"@.len() == 1 && "6"@[0] == '6',
        "9"@.len() == 1 && "9"@[0] == '9',
        "5"@.len() == 1 && "5"@[0] == '5',
        "o"@.len() == 1 && "o"@[0] == 'o',
        "+"@.len() == 1 && "+"@[0] == '+',
        "m"@.len() == 1 && "m"@[0] == 'm',
        "m7"@.len() == 2 && "m7"@[0] == 'm' && "m7"@[1] == '7',
        "M7"@.len() == 2 && "M7"@[0] == 'M' && "M7"@[1] == '7',
        "o7"@.len() == 2 && "o7"@[0] == 'o' && "o7"@[1] == '7',
        "dim"@.len() == 3 && "dim"@[0] == 'd',
        "aug"@.len() == 3 && "aug"@[0] == 'a',
        "sus"@.len() == 3 && "sus"@[0] == 's',
        "min"@.len() == 3 && "min"@[0] == 'm' && "min"@[1] == 'i' && "min"@[2] == 'n',
        "maj"@.len() == 3 && "maj"@[0] == 'm' && "maj"@[1] == 'a' && "maj"@[2] == 'j',
        "dim7"@.len() == 4 && "dim7"@[0] == 'd' && "dim7"@[3] == '7',
        "maj7"@.len() == 4 && "maj7"@[0] == 'm' && "maj7"@[1] == 'a' && "maj7"@[2] == 'j'
            && "maj7"@[3] == '7',
        "sus4"@.len() == 4 && "sus4"@[0] == 's' && "sus4"@[3] == '4',
        "sus2"@.len() == 4 && "sus2"@[0] == 's' && "sus2"@[3] == '2',
{
    reveal_strlit("7");
    reveal_strlit("6");
    reveal_strlit("9");
    reveal_strlit("5");
    reveal_strlit("o");
    reveal_strlit("+");
    reveal_strlit("m");
    reveal_strlit("m7");
    reveal_strlit("M7");
    reveal_strlit("o7");
    reveal_strlit("dim");
    reveal_strlit("aug");
    reveal_strlit("sus");
    reveal_strlit("min");
    reveal_strlit("maj");
    reveal_strlit("dim7");
    reveal_strlit("maj7");
    reveal_strlit("sus4");
    reveal_strlit("sus2");
}

/// A triad with its quality applied: a seventh, sixth or ninth is added on
/// top, `dim` and `aug` are stacked of minor and of major thirds, `sus` puts
/// the fourth or the second in the third's place, and `5` leaves the third
/// out.
pub proof fn law_qualities_name_their_intervals(third: i32, fifth: i32, seventh: Option<i32>)
    requires
        third == 3 || third == 4,
    ensures
        ({
            let t = seq![0i32, third, fifth];
            let s = match seventh {
                Some(x) => x,
                None => 10i32,
            };
            &&& chord::suffixed(t, Seq::empty(), seventh) == Some(t)
            &&& chord::suffixed(t, "7"@, seventh) == Some(seq![0i32, third, fifth, s])
            &&& chord::suffixed(t, "maj7"@, seventh) == Some(seq![0i32, third, fifth, 11i32])
            &&& chord::suffixed(t, "M7"@, seventh) == Some(seq![0i32, third, fifth, 11i32])
            &&& chord::suffixed(t, "6"@, seventh) == Some(seq![0i32, third, fifth, 9i32])
            &&& chord::suffixed(t, "9"@, seventh) == Some(seq![0i32, third, fifth, s, 14i32])
            &&& chord::suffixed(t, "dim"@, seventh) == Some(seq![0i32, 3i32, 6i32])
            &&& chord::suffixed(t, "dim7"@, seventh) == Some(seq![0i32, 3i32, 6i32, 9i32])
            &&& chord::suffixed(t, "aug"@, seventh) == Some(seq![0i32, third, 8i32])
            &&& chord::suffixed(t, "sus4"@, seventh) == Some(seq![0i32, 5i32, fifth])
            &&& chord::suffixed(t, "sus2"@, seventh) == Some(seq![0i32, 2i32, fifth])
            &&& chord::suffixed(t, "5"@, seventh) == Some(seq![0i32, 7i32])
        }),
{
    lemma_qualities();
    let t = seq![0i32, third, fifth];
    let s = match seventh {
        Some(x) => x,
        None => 10i32,
    };
    assert(t.push(s) =~= seq![0i32, third, fifth, s]);
    assert(t.push(11) =~= seq![0i32, third, fifth, 11i32]);
    assert(t.push(9) =~= seq![0i32, third, fifth, 9i32]);
    assert(t.push(s).push(14) =~= seq![0i32, third, fifth, s, 14i32]);
    assert(t.update(1, 3).update(2, 6) =~= seq![0i32, 3i32, 6i32]);
    assert(t.update(1, 3).update(2, 6).push(9) =~= seq![0i32, 3i32, 6i32, 9i32]);
    assert(t.update(2, 8) =~= seq![0i32, third, 8i32]);
    assert(t.update(1, 5) =~= seq![0i32, 5i32, fifth]);
    assert(t.update(1, 2) =~= seq![0i32, 2i32, fifth]);
    assert(t.take(1).push(7) =~= seq![0i32, 7i32]);
}

/// A chord by letter stands on its letter. Plain it is a major triad, with an
/// `m` a minor one, and a `7` adds the minor seventh to either.
pub proof fn law_letters_name_their_chords(tok: Seq<char>)
    requires
        chord::root_split(tok) is Some,
    ensures
        ({
            let (root, q) = chord::root_split(tok)->0;
            let c = chord::letter_chord(tok);
            &&& c is Some ==> c->0.root == root
            &&& q.len() == 0 ==> c is Some && c->0.intervals == seq![0i32, 4i32, 7i32]
            &&& q == "m"@ ==> c is Some && c->0.intervals == seq![0i32, 3i32, 7i32]
            &&& q == "7"@ ==> c is Some && c->0.intervals == seq![0i32, 4i32, 7i32, 10i32]
            &&& q == "m7"@ ==> c is Some && c->0.intervals == seq![0i32, 3i32, 7i32, 10i32]
            &&& q == "maj7"@ ==> c is Some && c->0.intervals == seq![0i32, 4i32, 7i32, 11i32]
        }),
{
    lemma_qualities();
    law_qualities_name_their_intervals(3, 7, None);
    law_qualities_name_their_intervals(4, 7, None);
    let (root, q) = chord::root_split(tok)->0;
    if q.len() == 0 {
        assert(q =~= Seq::empty());
    } else if q == "m"@ {
        assert(q.skip(1) =~= Seq::empty());
    } else if q == "m7"@ {
        assert(q.skip(1) =~= "7"@);
    } else if q == "maj7"@ {
        assert(q.take(3) =~= "maj"@);
        assert(q.take(3)[1] == 'a');
    }
}

proof fn lemma_steps(mode: Mode, i: int)
    requires
        0 <= i < gen::mode_steps(mode).len(),
    ensures
        gen::mode_steps(mode)[i] < 12,
{
}

/// A step of a scale above another is as many semitones up, octaves apart.
proof fn lemma_degree_above(iv: Seq<u8>, d: int, k: int)
    requires
        iv.len() == 7,
        0 <= d < 7,
        0 <= k < 7,
        iv[d] < 12,
        iv[(d + k) % 7] < 12,
    ensures
        -12 < chord::degree_above(iv, d, d + k) < 24,
        (iv[d] + chord::degree_above(iv, d, d + k) - iv[(d + k) % 7]) % 12 == 0,
{
}

proof fn lemma_modulo(root: int, a: int, b: int, c: int)
    requires
        root == a % 12,
        (b + c) % 12 == 0,
    ensures
        (root - a) % 12 == 0,
        (root - a + b + c) % 12 == 0,
{
}

/// A numeral without an accidental stands on its step of the scale and has the
/// scale's own fifth, four steps up, and seventh, six steps up. Its case
/// decides the third. An accidental moves the whole chord by a semitone.
#[verifier::rlimit(60)]
#[verifier::spinoff_prover]
pub proof fn law_numerals_stand_on_their_steps(sym: ChordSym, key: u8, mode: Mode)
    requires
        sym.degree < 7,
        key < 12,
        -1 <= sym.accidental <= 1,
        gen::mode_steps(mode).len() == 7,
    ensures
        ({
            let c = chord::roman_chord(sym, Seq::empty(), key, mode);
            let v = chord::roman_chord(sym, "7"@, key, mode);
            let steps = gen::mode_steps(mode);
            let d = sym.degree as int;
            &&& c is Some && v is Some
            &&& c->0.root < 12
            &&& (c->0.root - (key + steps[d] + sym.accidental)) % 12 == 0
            &&& c->0.intervals.len() == 3 && c->0.intervals[0] == 0
            &&& c->0.intervals[1] == (if sym.minor {
                3int
            } else {
                4int
            })
            &&& sym.accidental == 0 ==> (steps[d] + c->0.intervals[2] - steps[(d + 4) % 7]) % 12
                == 0
            &&& sym.accidental != 0 ==> c->0.intervals[2] == 7
            &&& v->0.root == c->0.root && v->0.intervals.len() == 4
            &&& v->0.intervals.take(3) == c->0.intervals
            &&& sym.accidental == 0 ==> (steps[d] + v->0.intervals[3] - steps[(d + 6) % 7]) % 12
                == 0
        }),
{
    let steps = gen::mode_steps(mode);
    let d = sym.degree as int;
    lemma_steps(mode, d);
    lemma_steps(mode, (d + 4) % 7);
    lemma_steps(mode, (d + 6) % 7);
    lemma_degree_above(steps, d, 4);
    lemma_degree_above(steps, d, 6);
    lemma_modulo((key + steps[d] + sym.accidental) % 12, key + steps[d] + sym.accidental, 0, 0);
    let third: i32 = if sym.minor {
        3
    } else {
        4
    };
    let fifth: i32 = if sym.accidental == 0 {
        chord::degree_above(steps, d, d + 4) as i32
    } else {
        7
    };
    let seventh: Option<i32> = if sym.accidental == 0 {
        Some(chord::degree_above(steps, d, d + 6) as i32)
    } else {
        None
    };
    law_qualities_name_their_intervals(third, fifth, seventh);
    let c = chord::roman_chord(sym, Seq::empty(), key, mode);
    let v = chord::roman_chord(sym, "7"@, key, mode);
    assert(c->0.intervals == seq![0i32, third, fifth]);
    assert(v->0.intervals.take(3) =~= c->0.intervals);
}

proof fn lemma_chords_from(
    acc: Seq<ChordView>,
    toks: Seq<Seq<char>>,
    i: nat,
    key: u8,
    mode: Mode,
)
    requires
        i <= toks.len(),
        acc.len() == i,
        toks.len() > 0,
        forall|j: int|
            i <= j < toks.len() ==> chord::peel(#[trigger] toks[j], false).len() > 0
                && chord::chord_symbol(chord::peel(toks[j], false), key, mode) is Some,
    ensures
        ({
            let r = chord::chords_from(acc, toks, i, key, mode);
            &&& r is Ok
            &&& r->Ok_0.len() == toks.len()
            &&& forall|j: int| 0 <= j < i ==> #[trigger] r->Ok_0[j] == acc[j]
            &&& forall|j: int|
                i <= j < toks.len() ==> Some(#[trigger] r->Ok_0[j]) == chord::chord_symbol(
                    chord::peel(toks[j], false),
                    key,
                    mode,
                )
        }),
    decreases toks.len() - i,
{
    if i < toks.len() {
        let t = chord::peel(toks[i as int], false);
        let c = chord::chord_symbol(t, key, mode)->0;
        lemma_chords_from(acc.push(c), toks, i + 1, key, mode);
        let r = chord::chords_from(acc, toks, i, key, mode);
        assert(r == chord::chords_from(acc.push(c), toks, i + 1, key, mode));
        assert(r->Ok_0[i as int] == acc.push(c)[i as int]);
        assert forall|j: int| 0 <= j < i implies #[trigger] r->Ok_0[j] == acc[j] by {
            assert(r->Ok_0[j] == acc.push(c)[j]);
        }
    }
}

/// A progression has a chord for each of its symbols, in order.
pub proof fn law_progressions_keep_their_order(
    toks: Seq<Seq<char>>,
    key: u8,
    mode: Mode,
    j: int,
)
    requires
        toks.len() > 1,
        0 <= j < toks.len(),
        forall|i: int|
            0 <= i < toks.len() ==> chord::peel(#[trigger] toks[i], false).len() > 0
                && chord::chord_symbol(chord::peel(toks[i], false), key, mode) is Some,
    ensures
        ({
            let r = chord::progression(toks, key, mode);
            &&& r is Ok
            &&& r->Ok_0.len() == toks.len()
            &&& Some(r->Ok_0[j]) == chord::chord_symbol(chord::peel(toks[j], false), key, mode)
        }),
{
    lemma_chords_from(Seq::empty(), toks, 0, key, mode);
    let r = chord::progression(toks, key, mode);
    assert(Some(r->Ok_0[j]) == chord::chord_symbol(chord::peel(toks[j], false), key, mode));
}

} // verus!
