//! The sample channel: which sample a note plays, and how samples are packed
//! into bits.

use vstd::prelude::*;

verus! {

/// How many samples the built-in bank has: kick, snare and hat.
pub const BANK: usize = 3;

/// The playback rate of every sample, as the chip numbers it.
pub const RATE_INDEX: u8 = 15;

/// The sample a note plays: the first on middle C, the next a semitone up.
pub open spec fn sample_index(note: u8) -> nat {
    if note < 60 {
        0
    } else {
        (note - 60) as nat
    }
}

pub fn note_to_sample(note: u8) -> (r: usize)
    ensures
        r == sample_index(note),
{
    if note < 60 {
        0
    } else {
        (note - 60) as usize
    }
}

// ---------------------------------------------------------------- encoding

/// The level the output follows, in 60ths of full scale around the middle.
/// `x` is a sample in millionths of full scale.
pub open spec fn above(x: i32, dac: int) -> bool {
    64 * 1_000_000 + 60 * x > dac * 1_000_000
}

/// One bit of the encoding: up where the wave is above the output and there
/// is room, else down where there is room, else up.
pub open spec fn delta(x: i32, dac: int) -> (int, bool) {
    if above(x, dac) && dac < 126 {
        (dac + 2, true)
    } else if dac > 1 {
        (dac - 2, false)
    } else {
        (dac, true)
    }
}

/// The output and the bits after the first `k` samples.
pub open spec fn deltas(wave: Seq<i32>, k: nat) -> (int, Seq<bool>)
    decreases k,
{
    if k == 0 {
        (64, Seq::empty())
    } else {
        let (dac, bits) = deltas(wave, (k - 1) as nat);
        let (next, bit) = delta(wave[k - 1], dac);
        (next, bits.push(bit))
    }
}

/// How many bytes `n` bits take: one more than a multiple of sixteen.
pub open spec fn packed_len(n: nat) -> nat {
    let bytes = (n + 7) / 8;
    let from = if bytes < 1 {
        0
    } else {
        (bytes - 1) as nat
    };
    (from + 15) / 16 * 16 + 1
}

/// Bits with a toggling pattern behind them.
pub open spec fn toggled(bits: Seq<bool>, n: nat) -> Seq<bool> {
    Seq::new(
        n,
        |i: int|
            if i < bits.len() {
                bits[i]
            } else {
                i % 2 == 1
            },
    )
}

/// Eight bits from `i` on as a byte, the first lowest, up to the `k`th.
pub open spec fn byte_of(bits: Seq<bool>, i: int, k: nat) -> nat
    decreases k,
{
    if k == 0 {
        0
    } else {
        byte_of(bits, i, (k - 1) as nat) + (if bits[i + k - 1] {
            vstd::arithmetic::power2::pow2((k - 1) as nat)
        } else {
            0
        })
    }
}

/// A wave as one bit per sample.
pub open spec fn encoded(wave: Seq<i32>) -> Seq<u8> {
    let bits = deltas(wave, wave.len()).1;
    let n = packed_len(bits.len());
    let all = toggled(bits, 8 * n);
    Seq::new(n, |j: int| byte_of(all, 8 * j, 8) as u8)
}

/// The output never leaves its seven bits, and there is one bit per sample.
pub proof fn law_output_stays_in_range(wave: Seq<i32>, k: nat)
    ensures
        0 <= deltas(wave, k).0 <= 127,
        deltas(wave, k).0 % 2 == 0,
        deltas(wave, k).1.len() == k,
    decreases k,
{
    if k > 0 {
        law_output_stays_in_range(wave, (k - 1) as nat);
    }
}

/// An encoded sample has the length that the chip can play: one more than a
/// multiple of sixteen bytes, with room for every bit.
pub proof fn law_encoded_length(wave: Seq<i32>)
    ensures
        encoded(wave).len() % 16 == 1,
        8 * encoded(wave).len() >= wave.len(),
{
    law_output_stays_in_range(wave, wave.len());
}

fn next_delta(x: i32, dac: i64) -> (r: (i64, bool))
    requires
        0 <= dac <= 127,
    ensures
        r == (delta(x, dac as int).0 as i64, delta(x, dac as int).1),
        0 <= r.0 <= 127,
{
    if 64_000_000 + 60 * x as i64 > dac * 1_000_000 && dac < 126 {
        (dac + 2, true)
    } else if dac > 1 {
        (dac - 2, false)
    } else {
        (dac, true)
    }
}

fn pack(bits: &Vec<bool>, i: usize) -> (r: u8)
    requires
        i + 8 <= bits@.len(),
    ensures
        r == byte_of(bits@, i as int, 8),
{
    let mut b: u8 = 0;
    let mut w: u8 = 1;
    let total: usize = bits.len();
    proof {
        vstd::arithmetic::power2::lemma2_to64();
    }
    for k in 0..7usize
        invariant
            i + 8 <= total,
            total == bits@.len(),
            k <= 7,
            w == vstd::arithmetic::power2::pow2(k as nat),
            w <= 128,
            b == byte_of(bits@, i as int, k as nat),
            b < w,
    {
        proof {
            vstd::arithmetic::power2::lemma2_to64();
            vstd::arithmetic::power2::lemma_pow2_unfold((k + 1) as nat);
            if k < 7 {
                vstd::arithmetic::power2::lemma_pow2_strictly_increases(k as nat, 7);
            }
        }
        if bits[i + k] {
            b = b + w;
        }
        w = w * 2;
    }
    if bits[i + 7] {
        b = b + 128;
    }
    assert(w == 128) by {
        vstd::arithmetic::power2::lemma2_to64();
    }
    b
}

/// Encodes a wave, given in millionths of full scale: the output follows it
/// two steps per bit.
pub fn encode_dmc(wave: &[i32]) -> (r: Vec<u8>)
    requires
        wave@.len() + 128 <= usize::MAX,
    ensures
        r@ == encoded(wave@),
{
    let mut dac: i64 = 64;
    let mut bits: Vec<bool> = Vec::new();
    for i in 0..wave.len()
        invariant
            0 <= dac <= 127,
            bits@.len() == i,
            (dac as int, bits@) == deltas(wave@, i as nat),
    {
        let (next, bit): (i64, bool) = next_delta(wave[i], dac);
        dac = next;
        bits.push(bit);
    }
    let ghost raw = bits@;
    let bytes: usize = (bits.len() + 7) / 8;
    let from: usize = if bytes < 1 {
        0
    } else {
        bytes - 1
    };
    let n: usize = (from + 15) / 16 * 16 + 1;
    assert(n == packed_len(raw.len()));
    while bits.len() < n * 8
        invariant
            raw.len() <= bits@.len() <= n * 8,
            n * 8 <= usize::MAX,
            bits@ == toggled(raw, bits@.len()),
        decreases n * 8 - bits@.len(),
    {
        let odd: bool = bits.len() % 2 == 1;
        bits.push(odd);
        assert(bits@ =~= toggled(raw, bits@.len()));
    }
    let mut out: Vec<u8> = Vec::new();
    for j in 0..n
        invariant
            n * 8 <= usize::MAX,
            bits@.len() == n * 8,
            out@.len() == j,
            forall|i: int| 0 <= i < j ==> #[trigger] out@[i] == byte_of(bits@, 8 * i, 8),
    {
        out.push(pack(&bits, 8 * j));
    }
    assert(out@ =~= encoded(wave@));
    out
}

// ---------------------------------------------------------------- playing back

/// Bit `k` of packed bytes, the lowest of a byte first.
pub open spec fn bit_at(bytes: Seq<u8>, k: int) -> bool {
    bytes[k / 8] as int / vstd::arithmetic::power2::pow2((k % 8) as nat) as int % 2 == 1
}

/// The output of the chip after `k` bits: it goes up two steps for a set bit
/// and down for a clear one, as far as there is room.
pub open spec fn chip_output(bytes: Seq<u8>, k: nat) -> int
    decreases k,
{
    if k == 0 {
        64
    } else {
        let before = chip_output(bytes, (k - 1) as nat);
        if bit_at(bytes, k - 1) {
            if before <= 125 {
                before + 2
            } else {
                before
            }
        } else if before >= 2 {
            before - 2
        } else {
            before
        }
    }
}

proof fn lemma_byte_bits(bits: Seq<bool>, i: int, k: nat)
    requires
        k < 8,
        0 <= i,
        i + 8 <= bits.len(),
    ensures
        byte_of(bits, i, 8) < 256,
        (byte_of(bits, i, 8) as int / vstd::arithmetic::power2::pow2(k) as int % 2 == 1) == bits[i
            + k],
{
    vstd::arithmetic::power2::lemma2_to64();
    reveal_with_fuel(byte_of, 9);
    let w = |j: int|
        if bits[i + j] {
            1int
        } else {
            0int
        };
    let b = byte_of(bits, i, 8) as int;
    assert(b == w(0) + 2 * w(1) + 4 * w(2) + 8 * w(3) + 16 * w(4) + 32 * w(5) + 64 * w(6) + 128
        * w(7));
    if k == 0 {
        assert(b / 1 % 2 == w(0));
    } else if k == 1 {
        assert(b / 2 % 2 == w(1));
    } else if k == 2 {
        assert(b / 4 % 2 == w(2));
    } else if k == 3 {
        assert(b / 8 % 2 == w(3));
    } else if k == 4 {
        assert(b / 16 % 2 == w(4));
    } else if k == 5 {
        assert(b / 32 % 2 == w(5));
    } else if k == 6 {
        assert(b / 64 % 2 == w(6));
    } else {
        assert(b / 128 % 2 == w(7));
    }
}

proof fn lemma_encoded_bit(wave: Seq<i32>, k: nat)
    requires
        k < 8 * encoded(wave).len(),
    ensures
        bit_at(encoded(wave), k as int) == (if k < wave.len() {
            deltas(wave, wave.len()).1[k as int]
        } else {
            k % 2 == 1
        }),
{
    law_output_stays_in_range(wave, wave.len());
    let bits = deltas(wave, wave.len()).1;
    let n = packed_len(bits.len());
    let all = toggled(bits, 8 * n);
    let j = k as int / 8;
    lemma_byte_bits(all, 8 * j, (k % 8) as nat);
    assert(8 * j + (k % 8) as nat == k);
    assert(encoded(wave)[j] == byte_of(all, 8 * j, 8));
}

proof fn lemma_deltas_prefix(wave: Seq<i32>, k: nat, n: nat)
    requires
        k < n,
    ensures
        deltas(wave, n).1[k as int] == delta(wave[k as int], deltas(wave, k).0).1,
    decreases n,
{
    law_output_stays_in_range(wave, (n - 1) as nat);
    if k < n - 1 {
        lemma_deltas_prefix(wave, k, (n - 1) as nat);
    }
}

/// The chip's output is where the encoder thinks it is, as long as the wave
/// keeps to full scale.
proof fn lemma_chip_follows(wave: Seq<i32>, k: nat)
    requires
        k <= wave.len(),
        forall|i: int| 0 <= i < wave.len() ==> -1_000_000 <= #[trigger] wave[i] <= 1_000_000,
    ensures
        chip_output(encoded(wave), k) == deltas(wave, k).0,
        2 <= deltas(wave, k).0 <= 126,
        deltas(wave, k).0 % 2 == 0,
    decreases k,
{
    if k > 0 {
        lemma_chip_follows(wave, (k - 1) as nat);
        law_encoded_length(wave);
        lemma_encoded_bit(wave, (k - 1) as nat);
        lemma_deltas_prefix(wave, (k - 1) as nat, wave.len());
        let x = wave[k - 1];
        assert(-1_000_000 <= x <= 1_000_000);
    }
}

/// A sample plays back as the wave it was made of: at every bit the chip's
/// output goes two steps towards the wave. What fills the last bytes stays
/// where it is, up and down in turn.
pub proof fn law_the_chip_follows_the_wave(wave: Seq<i32>, k: nat)
    requires
        k < 8 * encoded(wave).len(),
        forall|i: int| 0 <= i < wave.len() ==> -1_000_000 <= #[trigger] wave[i] <= 1_000_000,
    ensures
        ({
            let a = chip_output(encoded(wave), k);
            let b = chip_output(encoded(wave), k + 1);
            &&& k < wave.len() && 60 * wave[k as int] > (a - 64) * 1_000_000 ==> b == a + 2
            &&& k < wave.len() && 60 * wave[k as int] <= (a - 64) * 1_000_000 ==> b == a - 2
            &&& k >= wave.len() ==> bit_at(encoded(wave), k as int) == (k % 2 == 1)
        }),
{
    lemma_encoded_bit(wave, k);
    if k < wave.len() {
        lemma_chip_follows(wave, k);
        lemma_chip_follows(wave, k + 1);
        lemma_deltas_prefix(wave, k, wave.len());
        assert(-1_000_000 <= wave[k as int] <= 1_000_000);
    }
}

} // verus!
