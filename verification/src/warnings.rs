//! What the warnings of a song mean: each tells of something that is in the
//! song, and nothing that they are for goes untold.

use vstd::prelude::*;

use crate::compile;
use crate::compile::{TallyView, Warning};
use crate::song;
use crate::song::{Cell, SongView, CHANNELS, STEPS_PER_PHRASE};

verus! {

/// The cell that a channel plays on a step, with its own length.
pub open spec fn played_cell(s: SongView, p: int, ch: int, step: int) -> Cell {
    s.phrases[p][step % (s.channel_length[ch] as int)][ch]
}

/// Whether a tally goes on from another.
spec fn goes_on(a: TallyView, b: TallyView) -> bool {
    &&& a.low <= b.low
    &&& forall|w: Warning| #[trigger] a.missing.contains(w) ==> b.missing.contains(w)
    &&& forall|x: u8| #[trigger] a.odd.contains(x) ==> b.odd.contains(x)
}

/// Whether a tally tells of a cell.
spec fn tells(t: TallyView, x: Cell, p: int, ch: int, step: int, samples: nat) -> bool {
    x.note matches Some(n) ==> {
        &&& ch <= 1 && n < 33 ==> t.low > 0
        &&& ch == 4 && (if n < 60 {
            0
        } else {
            n - 60
        }) >= samples ==> exists|w: Warning| #[trigger]
            t.missing.contains(w) && (w matches Warning::NoSample { phrase, step: at, note, .. }
                && phrase == p && at == step && note == n)
        &&& x.fx matches Some((cmd, v)) ==> (compile::fx_event(cmd, v) is None
            ==> t.odd.contains(compile::upper_byte(cmd)))
    }
}

proof fn lemma_pushed<T>(v: Seq<T>, x: T)
    ensures
        v.push(x).contains(x),
        forall|y: T| #[trigger] v.contains(y) ==> v.push(x).contains(y),
{
    assert(v.push(x)[v.len() as int] == x);
    assert forall|y: T| #[trigger] v.contains(y) implies v.push(x).contains(y) by {
        let i = choose|i: int| 0 <= i < v.len() && v[i] == y;
        assert(v.push(x)[i] == y);
    }
}

proof fn lemma_noticed(t: TallyView, x: Cell, p: int, ch: int, step: int, samples: nat)
    requires
        0 <= p <= usize::MAX,
        0 <= step < 16,
    ensures
        goes_on(t, compile::noticed(t, x, p, ch, step, samples)),
        tells(compile::noticed(t, x, p, ch, step, samples), x, p, ch, step, samples),
{
    if let Some(n) = x.note {
        let i = if n < 60 {
            0int
        } else {
            n - 60
        };
        if ch == 4 && i >= samples {
            let w = Warning::NoSample {
                phrase: p as usize,
                step: step as usize,
                note: n,
                sample: i as usize,
                count: samples as usize,
            };
            lemma_pushed(t.missing, w);
            assert(compile::noticed(t, x, p, ch, step, samples).missing == t.missing.push(w));
        }
        if let Some((cmd, v)) = x.fx {
            lemma_pushed(t.odd, compile::upper_byte(cmd));
        }
    }
}

proof fn lemma_tells_on(
    a: TallyView,
    b: TallyView,
    x: Cell,
    p: int,
    ch: int,
    step: int,
    samples: nat,
)
    requires
        goes_on(a, b),
        tells(a, x, p, ch, step, samples),
    ensures
        tells(b, x, p, ch, step, samples),
{
    if let Some(n) = x.note {
        let i = if n < 60 {
            0int
        } else {
            n - 60
        };
        if ch == 4 && i >= samples {
            let w = choose|w: Warning| #[trigger]
                a.missing.contains(w) && (w matches Warning::NoSample { phrase, step: at, note, .. }
                    && phrase == p && at == step && note == n);
            assert(b.missing.contains(w));
        }
    }
}

proof fn lemma_channel(
    t: TallyView,
    phrase: Seq<Seq<Cell>>,
    p: int,
    len: u8,
    ch: int,
    samples: nat,
    k: nat,
    step: int,
)
    requires
        0 <= p <= usize::MAX,
        k <= 16,
    ensures
        goes_on(t, compile::channel_notices(t, phrase, p, len, ch, samples, k)),
        0 <= step < k ==> tells(
            compile::channel_notices(t, phrase, p, len, ch, samples, k),
            compile::cell_at(phrase, len, ch, step),
            p,
            ch,
            step,
            samples,
        ),
    decreases k,
{
    if k > 0 {
        let a = compile::channel_notices(t, phrase, p, len, ch, samples, (k - 1) as nat);
        let b = compile::channel_notices(t, phrase, p, len, ch, samples, k);
        lemma_channel(t, phrase, p, len, ch, samples, (k - 1) as nat, step);
        lemma_noticed(a, compile::cell_at(phrase, len, ch, k - 1), p, ch, k - 1, samples);
        if 0 <= step < k - 1 {
            lemma_tells_on(
                a,
                b,
                compile::cell_at(phrase, len, ch, step),
                p,
                ch,
                step,
                samples,
            );
        }
    }
}

proof fn lemma_phrase(
    t: TallyView,
    phrase: Seq<Seq<Cell>>,
    p: int,
    lens: Seq<u8>,
    samples: nat,
    c: nat,
    ch: int,
    step: int,
)
    requires
        0 <= p <= usize::MAX,
        0 <= step < 16,
    ensures
        goes_on(t, compile::phrase_notices(t, phrase, p, lens, samples, c)),
        0 <= ch < c ==> tells(
            compile::phrase_notices(t, phrase, p, lens, samples, c),
            compile::cell_at(phrase, lens[ch], ch, step),
            p,
            ch,
            step,
            samples,
        ),
    decreases c,
{
    if c > 0 {
        let a = compile::phrase_notices(t, phrase, p, lens, samples, (c - 1) as nat);
        let b = compile::phrase_notices(t, phrase, p, lens, samples, c);
        lemma_phrase(t, phrase, p, lens, samples, (c - 1) as nat, ch, step);
        lemma_channel(
            a,
            phrase,
            p,
            lens[c - 1],
            c - 1,
            samples,
            STEPS_PER_PHRASE as nat,
            step,
        );
        if 0 <= ch < c - 1 {
            lemma_tells_on(
                a,
                b,
                compile::cell_at(phrase, lens[ch], ch, step),
                p,
                ch,
                step,
                samples,
            );
        }
    }
}

proof fn lemma_song(
    phrases: Seq<Seq<Seq<Cell>>>,
    lens: Seq<u8>,
    samples: nat,
    k: nat,
    p: int,
    ch: int,
    step: int,
)
    requires
        k <= usize::MAX,
        0 <= p < k,
        0 <= step < 16,
        0 <= ch < CHANNELS,
    ensures
        tells(
            compile::song_notices(phrases, lens, samples, k),
            compile::cell_at(phrases[p], lens[ch], ch, step),
            p,
            ch,
            step,
            samples,
        ),
    decreases k,
{
    let a = compile::song_notices(phrases, lens, samples, (k - 1) as nat);
    let b = compile::song_notices(phrases, lens, samples, k);
    lemma_phrase(a, phrases[k - 1], k - 1, lens, samples, CHANNELS as nat, ch, step);
    if p < k - 1 {
        lemma_song(phrases, lens, samples, (k - 1) as nat, p, ch, step);
        lemma_tells_on(
            a,
            b,
            compile::cell_at(phrases[p], lens[ch], ch, step),
            p,
            ch,
            step,
            samples,
        );
    }
}

proof fn lemma_effects(odd: Seq<u8>, k: nat, x: u8)
    requires
        x < k <= 256,
        odd.contains(x),
    ensures
        compile::effect_warnings(odd, k).contains(Warning::NoEffect(x)),
    decreases k,
{
    let before = compile::effect_warnings(odd, (k - 1) as nat);
    if odd.contains((k - 1) as u8) {
        lemma_pushed(before, Warning::NoEffect((k - 1) as u8));
    }
    if x < k - 1 {
        lemma_effects(odd, (k - 1) as nat, x);
    }
}

proof fn lemma_joined<T>(a: Seq<T>, b: Seq<T>)
    ensures
        forall|y: T| #[trigger] a.contains(y) ==> (a + b).contains(y),
        forall|y: T| #[trigger] b.contains(y) ==> (a + b).contains(y),
{
    assert forall|y: T| #[trigger] a.contains(y) implies (a + b).contains(y) by {
        let i = choose|i: int| 0 <= i < a.len() && a[i] == y;
        assert((a + b)[i] == y);
    }
    assert forall|y: T| #[trigger] b.contains(y) implies (a + b).contains(y) by {
        let i = choose|i: int| 0 <= i < b.len() && b[i] == y;
        assert((a + b)[a.len() + i] == y);
    }
}

/// A song is warned about each note of the sample channel for which there is
/// no sample, with the place where it stands; about notes below the lowest of
/// the pulses; and about the letter of each effect that the driver does not
/// know. A song that plays nothing is warned about as well.
pub proof fn law_nothing_goes_untold(s: SongView, p: int, ch: int, step: int)
    requires
        0 <= p < s.phrases.len() <= usize::MAX,
        0 <= ch < CHANNELS,
        0 <= step < STEPS_PER_PHRASE,
        1 <= s.channel_length[ch] <= STEPS_PER_PHRASE,
    ensures
        ({
            let w = compile::warnings_of(s);
            let x = played_cell(s, p, ch, step);
            let n = x.note->0;
            &&& song::playback(s).0.len() == 0 ==> w.contains(Warning::NoOrder)
            &&& x.note is Some && ch == 4 && n >= 60 && n - 60 >= compile::sample_count(s)
                ==> exists|y: Warning| #[trigger]
                w.contains(y) && (y matches Warning::NoSample { phrase, step: at, note, .. }
                    && phrase == p && at == step && note == n)
            &&& x.note is Some && ch <= 1 && n < 33 ==> exists|y: Warning| #[trigger]
                w.contains(y) && y is LowNotes
            &&& x.note is Some && x.fx is Some && compile::fx_event((x.fx->0).0, (x.fx->0).1) is None
                ==> w.contains(Warning::NoEffect(compile::upper_byte((x.fx->0).0)))
        }),
{
    let samples = compile::sample_count(s);
    let t = compile::song_notices(s.phrases, s.channel_length, samples, s.phrases.len());
    let x = compile::cell_at(s.phrases[p], s.channel_length[ch], ch, step);
    assert(x == played_cell(s, p, ch, step));
    lemma_song(s.phrases, s.channel_length, samples, s.phrases.len(), p, ch, step);
    let w1 = if song::playback(s).0.len() == 0 {
        t.missing.push(Warning::NoOrder)
    } else {
        t.missing
    };
    lemma_pushed(t.missing, Warning::NoOrder);
    let w2 = if t.low > 0 {
        w1.push(Warning::LowNotes(t.low as u128))
    } else {
        w1
    };
    lemma_pushed(w1, Warning::LowNotes(t.low as u128));
    let e = compile::effect_warnings(t.odd, 256);
    lemma_joined(w2, e);
    assert(compile::warnings_of(s) == w2 + e);
    if let Some(n) = x.note {
        if ch == 4 && n >= 60 && n - 60 >= samples {
            let y = choose|y: Warning| #[trigger]
                t.missing.contains(y) && (y matches Warning::NoSample { phrase, step: at, note, .. }
                    && phrase == p && at == step && note == n);
            assert(w1.contains(y));
            assert(w2.contains(y));
            assert((w2 + e).contains(y));
        }
        if ch <= 1 && n < 33 {
            let y = Warning::LowNotes(t.low as u128);
            assert(w2.contains(y));
            assert((w2 + e).contains(y));
        }
        if let Some((cmd, v)) = x.fx {
            if compile::fx_event(cmd, v) is None {
                lemma_effects(t.odd, 256, compile::upper_byte(cmd));
            }
        }
    }
    if song::playback(s).0.len() == 0 {
        assert(w1.contains(Warning::NoOrder));
        assert(w2.contains(Warning::NoOrder));
    }
}

} // verus!
