//! Equal temperament, and what a period of the chip sounds in it.
//!
//! A pulse at period `p` sounds at `CPU_HZ / (16 (p + 1))` Hz and the triangle
//! at half of that. A note is nearest to a frequency when the frequency is
//! less than half a semitone off it. Raised to the 24th power, half a semitone
//! is a factor of two, so the comparison needs no roots.

use vstd::prelude::*;

use crate::rip::pitch;
use crate::rip::trace::{PU1, PU2, TRI};

verus! {

/// The clock of the chip, in Hz.
pub const CPU_HZ: u32 = 1_789_773;

pub open spec fn pow24(x: int) -> int {
    let a = x * x * x;
    let b = a * a;
    let c = b * b;
    c * c
}

/// Two to a power.
pub open spec fn twos(k: nat) -> int
    decreases k,
{
    if k == 0 {
        1
    } else {
        2 * twos((k - 1) as nat)
    }
}

/// Whether the frequency `CPU_HZ / x` is no more than half a semitone below a
/// note. A-4, which is note 69, is at 440 Hz: a frequency `f` is, when
/// `f^24 >= 440^24 * 2^(2 n - 139)`. The octaves of the note are taken out of
/// the power.
pub open spec fn reaches(n: nat, x: nat) -> bool {
    pow24(440 * x * twos(n / 12)) * twos(2 * (n % 12)) <= pow24(32 * CPU_HZ as int) * 0x8_0000
}

/// Whether a note is the one of equal temperament nearest to the frequency
/// `CPU_HZ / x`.
pub open spec fn is_nearest(n: nat, x: nat) -> bool {
    reaches(n, x) && !reaches(n + 1, x)
}

proof fn lemma_twos()
    ensures
        twos(0) == 1,
        twos(1) == 2,
        twos(2) == 4,
        twos(3) == 8,
        twos(4) == 16,
        twos(5) == 32,
        twos(6) == 64,
        twos(7) == 128,
        twos(8) == 256,
        twos(9) == 512,
        twos(10) == 1024,
        twos(12) == 4096,
        twos(14) == 16384,
        twos(16) == 65536,
        twos(18) == 262144,
        twos(20) == 1048576,
        twos(22) == 4194304,
{
    reveal_with_fuel(twos, 23);
}

proof fn lemma_product(a: int, b: int, c: int, d: int)
    requires
        0 <= a <= b,
        0 <= c <= d,
    ensures
        0 <= a * c <= b * d,
{
    assert(0 <= a * c <= b * d) by (nonlinear_arith)
        requires
            0 <= a <= b,
            0 <= c <= d,
    ;
}

proof fn lemma_pow24_grows(x: int, y: int)
    requires
        0 <= x <= y,
    ensures
        0 <= pow24(x) <= pow24(y),
{
    lemma_product(x, y, x, y);
    lemma_product(x * x, y * y, x, y);
    let a = x * x * x;
    let b = y * y * y;
    lemma_product(a, b, a, b);
    lemma_product(a * a, b * b, a * a, b * b);
    let c = (a * a) * (a * a);
    let d = (b * b) * (b * b);
    lemma_product(c, d, c, d);
}

proof fn lemma_twos_positive(k: nat)
    ensures
        twos(k) > 0,
    decreases k,
{
    if k > 0 {
        lemma_twos_positive((k - 1) as nat);
    }
}

/// A higher frequency reaches what a lower one does.
pub proof fn lemma_reaches_more(n: nat, x: nat, y: nat)
    requires
        y <= x,
        reaches(n, x),
    ensures
        reaches(n, y),
{
    lemma_twos_positive(n / 12);
    lemma_twos_positive(2 * (n % 12));
    let o = twos(n / 12);
    let q = twos(2 * (n % 12));
    assert(0 <= 440 * y * o <= 440 * x * o) by (nonlinear_arith)
        requires
            y <= x,
            o > 0,
            y >= 0,
    ;
    lemma_pow24_grows(440 * y * o, 440 * x * o);
    lemma_product(pow24(440 * y * o), pow24(440 * x * o), q, q);
}

/// An octave lower is half the frequency.
pub proof fn lemma_octave(n: nat, x: nat)
    requires
        n >= 12,
    ensures
        reaches(n, x) == reaches((n - 12) as nat, 2 * x),
{
    let k = (n / 12) as nat;
    assert((n - 12) as nat / 12 == k - 1);
    assert((n - 12) as nat % 12 == n % 12);
    assert(twos(k) == 2 * twos((k - 1) as nat));
    let o = twos((k - 1) as nat);
    assert(440 * x * (2 * o) == 440 * (2 * x) * o) by (nonlinear_arith);
}

proof fn lemma_level(n: nat, x: nat, o: int, q: int, y: int)
    requires
        twos(n / 12) == o,
        twos(2 * (n % 12)) == q,
        440 * x * o == y,
    ensures
        reaches(n, x) == (pow24(y) * q <= pow24(57_272_736) * 0x8_0000),
{
}

/// Whether a table entry is the longest pulse period that reaches its note.
spec fn is_top(n: nat) -> bool {
    let t = pitch::PITCH_TOPS@[n as int] as nat;
    reaches(n, 16 * (t + 1)) && !reaches(n, 16 * (t + 2))
}

#[verifier::spinoff_prover]
proof fn lemma_tops_0()
    ensures
        is_top(0),
        is_top(1),
        is_top(2),
        is_top(3),
        is_top(4),
        is_top(5),
{
    lemma_twos();
    assert(pitch::PITCH_TOPS@[0] == 14081);
    lemma_level(0, 225312, 1, 1, 99137280);
    lemma_level(0, 225328, 1, 1, 99144320);
    assert(pow24(99137280) * 1 <= pow24(57_272_736) * 0x8_0000 && pow24(99144320) * 1
        > pow24(57_272_736) * 0x8_0000) by (nonlinear_arith);
    assert(pitch::PITCH_TOPS@[1] == 13291);
    lemma_level(1, 212672, 1, 4, 93575680);
    lemma_level(1, 212688, 1, 4, 93582720);
    assert(pow24(93575680) * 4 <= pow24(57_272_736) * 0x8_0000 && pow24(93582720) * 4
        > pow24(57_272_736) * 0x8_0000) by (nonlinear_arith);
    assert(pitch::PITCH_TOPS@[2] == 12545);
    lemma_level(2, 200736, 1, 16, 88323840);
    lemma_level(2, 200752, 1, 16, 88330880);
    assert(pow24(88323840) * 16 <= pow24(57_272_736) * 0x8_0000 && pow24(88330880) * 16
        > pow24(57_272_736) * 0x8_0000) by (nonlinear_arith);
    assert(pitch::PITCH_TOPS@[3] == 11841);
    lemma_level(3, 189472, 1, 64, 83367680);
    lemma_level(3, 189488, 1, 64, 83374720);
    assert(pow24(83367680) * 64 <= pow24(57_272_736) * 0x8_0000 && pow24(83374720) * 64
        > pow24(57_272_736) * 0x8_0000) by (nonlinear_arith);
    assert(pitch::PITCH_TOPS@[4] == 11176);
    lemma_level(4, 178832, 1, 256, 78686080);
    lemma_level(4, 178848, 1, 256, 78693120);
    assert(pow24(78686080) * 256 <= pow24(57_272_736) * 0x8_0000 && pow24(78693120) * 256
        > pow24(57_272_736) * 0x8_0000) by (nonlinear_arith);
    assert(pitch::PITCH_TOPS@[5] == 10549);
    lemma_level(5, 168800, 1, 1024, 74272000);
    lemma_level(5, 168816, 1, 1024, 74279040);
    assert(pow24(74272000) * 1024 <= pow24(57_272_736) * 0x8_0000 && pow24(74279040) * 1024
        > pow24(57_272_736) * 0x8_0000) by (nonlinear_arith);
}

#[verifier::spinoff_prover]
proof fn lemma_tops_6()
    ensures
        is_top(6),
        is_top(7),
        is_top(8),
        is_top(9),
        is_top(10),
        is_top(11),
{
    lemma_twos();
    assert(pitch::PITCH_TOPS@[6] == 9957);
    lemma_level(6, 159328, 1, 4096, 70104320);
    lemma_level(6, 159344, 1, 4096, 70111360);
    assert(pow24(70104320) * 4096 <= pow24(57_272_736) * 0x8_0000 && pow24(70111360) * 4096
        > pow24(57_272_736) * 0x8_0000) by (nonlinear_arith);
    assert(pitch::PITCH_TOPS@[7] == 9398);
    lemma_level(7, 150384, 1, 16384, 66168960);
    lemma_level(7, 150400, 1, 16384, 66176000);
    assert(pow24(66168960) * 16384 <= pow24(57_272_736) * 0x8_0000 && pow24(66176000) * 16384
        > pow24(57_272_736) * 0x8_0000) by (nonlinear_arith);
    assert(pitch::PITCH_TOPS@[8] == 8870);
    lemma_level(8, 141936, 1, 65536, 62451840);
    lemma_level(8, 141952, 1, 65536, 62458880);
    assert(pow24(62451840) * 65536 <= pow24(57_272_736) * 0x8_0000 && pow24(62458880) * 65536
        > pow24(57_272_736) * 0x8_0000) by (nonlinear_arith);
    assert(pitch::PITCH_TOPS@[9] == 8372);
    lemma_level(9, 133968, 1, 262144, 58945920);
    lemma_level(9, 133984, 1, 262144, 58952960);
    assert(pow24(58945920) * 262144 <= pow24(57_272_736) * 0x8_0000 && pow24(58952960) * 262144
        > pow24(57_272_736) * 0x8_0000) by (nonlinear_arith);
    assert(pitch::PITCH_TOPS@[10] == 7902);
    lemma_level(10, 126448, 1, 1048576, 55637120);
    lemma_level(10, 126464, 1, 1048576, 55644160);
    assert(pow24(55637120) * 1048576 <= pow24(57_272_736) * 0x8_0000 && pow24(55644160) * 1048576
        > pow24(57_272_736) * 0x8_0000) by (nonlinear_arith);
    assert(pitch::PITCH_TOPS@[11] == 7459);
    lemma_level(11, 119360, 1, 4194304, 52518400);
    lemma_level(11, 119376, 1, 4194304, 52525440);
    assert(pow24(52518400) * 4194304 <= pow24(57_272_736) * 0x8_0000 && pow24(52525440) * 4194304
        > pow24(57_272_736) * 0x8_0000) by (nonlinear_arith);
}

#[verifier::spinoff_prover]
proof fn lemma_tops_12()
    ensures
        is_top(12),
        is_top(13),
        is_top(14),
        is_top(15),
        is_top(16),
        is_top(17),
{
    lemma_twos();
    assert(pitch::PITCH_TOPS@[12] == 7040);
    lemma_level(12, 112656, 2, 1, 99137280);
    lemma_level(12, 112672, 2, 1, 99151360);
    assert(pow24(99137280) * 1 <= pow24(57_272_736) * 0x8_0000 && pow24(99151360) * 1
        > pow24(57_272_736) * 0x8_0000) by (nonlinear_arith);
    assert(pitch::PITCH_TOPS@[13] == 6645);
    lemma_level(13, 106336, 2, 4, 93575680);
    lemma_level(13, 106352, 2, 4, 93589760);
    assert(pow24(93575680) * 4 <= pow24(57_272_736) * 0x8_0000 && pow24(93589760) * 4
        > pow24(57_272_736) * 0x8_0000) by (nonlinear_arith);
    assert(pitch::PITCH_TOPS@[14] == 6272);
    lemma_level(14, 100368, 2, 16, 88323840);
    lemma_level(14, 100384, 2, 16, 88337920);
    assert(pow24(88323840) * 16 <= pow24(57_272_736) * 0x8_0000 && pow24(88337920) * 16
        > pow24(57_272_736) * 0x8_0000) by (nonlinear_arith);
    assert(pitch::PITCH_TOPS@[15] == 5920);
    lemma_level(15, 94736, 2, 64, 83367680);
    lemma_level(15, 94752, 2, 64, 83381760);
    assert(pow24(83367680) * 64 <= pow24(57_272_736) * 0x8_0000 && pow24(83381760) * 64
        > pow24(57_272_736) * 0x8_0000) by (nonlinear_arith);
    assert(pitch::PITCH_TOPS@[16] == 5587);
    lemma_level(16, 89408, 2, 256, 78679040);
    lemma_level(16, 89424, 2, 256, 78693120);
    assert(pow24(78679040) * 256 <= pow24(57_272_736) * 0x8_0000 && pow24(78693120) * 256
        > pow24(57_272_736) * 0x8_0000) by (nonlinear_arith);
    assert(pitch::PITCH_TOPS@[17] == 5274);
    lemma_level(17, 84400, 2, 1024, 74272000);
    lemma_level(17, 84416, 2, 1024, 74286080);
    assert(pow24(74272000) * 1024 <= pow24(57_272_736) * 0x8_0000 && pow24(74286080) * 1024
        > pow24(57_272_736) * 0x8_0000) by (nonlinear_arith);
}

#[verifier::spinoff_prover]
proof fn lemma_tops_18()
    ensures
        is_top(18),
        is_top(19),
        is_top(20),
        is_top(21),
        is_top(22),
        is_top(23),
{
    lemma_twos();
    assert(pitch::PITCH_TOPS@[18] == 4978);
    lemma_level(18, 79664, 2, 4096, 70104320);
    lemma_level(18, 79680, 2, 4096, 70118400);
    assert(pow24(70104320) * 4096 <= pow24(57_272_736) * 0x8_0000 && pow24(70118400) * 4096
        > pow24(57_272_736) * 0x8_0000) by (nonlinear_arith);
    assert(pitch::PITCH_TOPS@[19] == 4698);
    lemma_level(19, 75184, 2, 16384, 66161920);
    lemma_level(19, 75200, 2, 16384, 66176000);
    assert(pow24(66161920) * 16384 <= pow24(57_272_736) * 0x8_0000 && pow24(66176000) * 16384
        > pow24(57_272_736) * 0x8_0000) by (nonlinear_arith);
    assert(pitch::PITCH_TOPS@[20] == 4434);
    lemma_level(20, 70960, 2, 65536, 62444800);
    lemma_level(20, 70976, 2, 65536, 62458880);
    assert(pow24(62444800) * 65536 <= pow24(57_272_736) * 0x8_0000 && pow24(62458880) * 65536
        > pow24(57_272_736) * 0x8_0000) by (nonlinear_arith);
    assert(pitch::PITCH_TOPS@[21] == 4185);
    lemma_level(21, 66976, 2, 262144, 58938880);
    lemma_level(21, 66992, 2, 262144, 58952960);
    assert(pow24(58938880) * 262144 <= pow24(57_272_736) * 0x8_0000 && pow24(58952960) * 262144
        > pow24(57_272_736) * 0x8_0000) by (nonlinear_arith);
    assert(pitch::PITCH_TOPS@[22] == 3950);
    lemma_level(22, 63216, 2, 1048576, 55630080);
    lemma_level(22, 63232, 2, 1048576, 55644160);
    assert(pow24(55630080) * 1048576 <= pow24(57_272_736) * 0x8_0000 && pow24(55644160) * 1048576
        > pow24(57_272_736) * 0x8_0000) by (nonlinear_arith);
    assert(pitch::PITCH_TOPS@[23] == 3729);
    lemma_level(23, 59680, 2, 4194304, 52518400);
    lemma_level(23, 59696, 2, 4194304, 52532480);
    assert(pow24(52518400) * 4194304 <= pow24(57_272_736) * 0x8_0000 && pow24(52532480) * 4194304
        > pow24(57_272_736) * 0x8_0000) by (nonlinear_arith);
}

#[verifier::spinoff_prover]
proof fn lemma_tops_24()
    ensures
        is_top(24),
        is_top(25),
        is_top(26),
        is_top(27),
        is_top(28),
        is_top(29),
{
    lemma_twos();
    assert(pitch::PITCH_TOPS@[24] == 3519);
    lemma_level(24, 56320, 4, 1, 99123200);
    lemma_level(24, 56336, 4, 1, 99151360);
    assert(pow24(99123200) * 1 <= pow24(57_272_736) * 0x8_0000 && pow24(99151360) * 1
        > pow24(57_272_736) * 0x8_0000) by (nonlinear_arith);
    assert(pitch::PITCH_TOPS@[25] == 3322);
    lemma_level(25, 53168, 4, 4, 93575680);
    lemma_level(25, 53184, 4, 4, 93603840);
    assert(pow24(93575680) * 4 <= pow24(57_272_736) * 0x8_0000 && pow24(93603840) * 4
        > pow24(57_272_736) * 0x8_0000) by (nonlinear_arith);
    assert(pitch::PITCH_TOPS@[26] == 3135);
    lemma_level(26, 50176, 4, 16, 88309760);
    lemma_level(26, 50192, 4, 16, 88337920);
    assert(pow24(88309760) * 16 <= pow24(57_272_736) * 0x8_0000 && pow24(88337920) * 16
        > pow24(57_272_736) * 0x8_0000) by (nonlinear_arith);
    assert(pitch::PITCH_TOPS@[27] == 2959);
    lemma_level(27, 47360, 4, 64, 83353600);
    lemma_level(27, 47376, 4, 64, 83381760);
    assert(pow24(83353600) * 64 <= pow24(57_272_736) * 0x8_0000 && pow24(83381760) * 64
        > pow24(57_272_736) * 0x8_0000) by (nonlinear_arith);
    assert(pitch::PITCH_TOPS@[28] == 2793);
    lemma_level(28, 44704, 4, 256, 78679040);
    lemma_level(28, 44720, 4, 256, 78707200);
    assert(pow24(78679040) * 256 <= pow24(57_272_736) * 0x8_0000 && pow24(78707200) * 256
        > pow24(57_272_736) * 0x8_0000) by (nonlinear_arith);
    assert(pitch::PITCH_TOPS@[29] == 2636);
    lemma_level(29, 42192, 4, 1024, 74257920);
    lemma_level(29, 42208, 4, 1024, 74286080);
    assert(pow24(74257920) * 1024 <= pow24(57_272_736) * 0x8_0000 && pow24(74286080) * 1024
        > pow24(57_272_736) * 0x8_0000) by (nonlinear_arith);
}

#[verifier::spinoff_prover]
proof fn lemma_tops_30()
    ensures
        is_top(30),
        is_top(31),
        is_top(32),
        is_top(33),
        is_top(34),
        is_top(35),
{
    lemma_twos();
    assert(pitch::PITCH_TOPS@[30] == 2488);
    lemma_level(30, 39824, 4, 4096, 70090240);
    lemma_level(30, 39840, 4, 4096, 70118400);
    assert(pow24(70090240) * 4096 <= pow24(57_272_736) * 0x8_0000 && pow24(70118400) * 4096
        > pow24(57_272_736) * 0x8_0000) by (nonlinear_arith);
    assert(pitch::PITCH_TOPS@[31] == 2348);
    lemma_level(31, 37584, 4, 16384, 66147840);
    lemma_level(31, 37600, 4, 16384, 66176000);
    assert(pow24(66147840) * 16384 <= pow24(57_272_736) * 0x8_0000 && pow24(66176000) * 16384
        > pow24(57_272_736) * 0x8_0000) by (nonlinear_arith);
    assert(pitch::PITCH_TOPS@[32] == 2216);
    lemma_level(32, 35472, 4, 65536, 62430720);
    lemma_level(32, 35488, 4, 65536, 62458880);
    assert(pow24(62430720) * 65536 <= pow24(57_272_736) * 0x8_0000 && pow24(62458880) * 65536
        > pow24(57_272_736) * 0x8_0000) by (nonlinear_arith);
    assert(pitch::PITCH_TOPS@[33] == 2092);
    lemma_level(33, 33488, 4, 262144, 58938880);
    lemma_level(33, 33504, 4, 262144, 58967040);
    assert(pow24(58938880) * 262144 <= pow24(57_272_736) * 0x8_0000 && pow24(58967040) * 262144
        > pow24(57_272_736) * 0x8_0000) by (nonlinear_arith);
    assert(pitch::PITCH_TOPS@[34] == 1974);
    lemma_level(34, 31600, 4, 1048576, 55616000);
    lemma_level(34, 31616, 4, 1048576, 55644160);
    assert(pow24(55616000) * 1048576 <= pow24(57_272_736) * 0x8_0000 && pow24(55644160) * 1048576
        > pow24(57_272_736) * 0x8_0000) by (nonlinear_arith);
    assert(pitch::PITCH_TOPS@[35] == 1864);
    lemma_level(35, 29840, 4, 4194304, 52518400);
    lemma_level(35, 29856, 4, 4194304, 52546560);
    assert(pow24(52518400) * 4194304 <= pow24(57_272_736) * 0x8_0000 && pow24(52546560) * 4194304
        > pow24(57_272_736) * 0x8_0000) by (nonlinear_arith);
}

#[verifier::spinoff_prover]
proof fn lemma_tops_36()
    ensures
        is_top(36),
        is_top(37),
        is_top(38),
        is_top(39),
        is_top(40),
        is_top(41),
{
    lemma_twos();
    assert(pitch::PITCH_TOPS@[36] == 1759);
    lemma_level(36, 28160, 8, 1, 99123200);
    lemma_level(36, 28176, 8, 1, 99179520);
    assert(pow24(99123200) * 1 <= pow24(57_272_736) * 0x8_0000 && pow24(99179520) * 1
        > pow24(57_272_736) * 0x8_0000) by (nonlinear_arith);
    assert(pitch::PITCH_TOPS@[37] == 1660);
    lemma_level(37, 26576, 8, 4, 93547520);
    lemma_level(37, 26592, 8, 4, 93603840);
    assert(pow24(93547520) * 4 <= pow24(57_272_736) * 0x8_0000 && pow24(93603840) * 4
        > pow24(57_272_736) * 0x8_0000) by (nonlinear_arith);
    assert(pitch::PITCH_TOPS@[38] == 1567);
    lemma_level(38, 25088, 8, 16, 88309760);
    lemma_level(38, 25104, 8, 16, 88366080);
    assert(pow24(88309760) * 16 <= pow24(57_272_736) * 0x8_0000 && pow24(88366080) * 16
        > pow24(57_272_736) * 0x8_0000) by (nonlinear_arith);
    assert(pitch::PITCH_TOPS@[39] == 1479);
    lemma_level(39, 23680, 8, 64, 83353600);
    lemma_level(39, 23696, 8, 64, 83409920);
    assert(pow24(83353600) * 64 <= pow24(57_272_736) * 0x8_0000 && pow24(83409920) * 64
        > pow24(57_272_736) * 0x8_0000) by (nonlinear_arith);
    assert(pitch::PITCH_TOPS@[40] == 1396);
    lemma_level(40, 22352, 8, 256, 78679040);
    lemma_level(40, 22368, 8, 256, 78735360);
    assert(pow24(78679040) * 256 <= pow24(57_272_736) * 0x8_0000 && pow24(78735360) * 256
        > pow24(57_272_736) * 0x8_0000) by (nonlinear_arith);
    assert(pitch::PITCH_TOPS@[41] == 1317);
    lemma_level(41, 21088, 8, 1024, 74229760);
    lemma_level(41, 21104, 8, 1024, 74286080);
    assert(pow24(74229760) * 1024 <= pow24(57_272_736) * 0x8_0000 && pow24(74286080) * 1024
        > pow24(57_272_736) * 0x8_0000) by (nonlinear_arith);
}

#[verifier::spinoff_prover]
proof fn lemma_tops_42()
    ensures
        is_top(42),
        is_top(43),
        is_top(44),
        is_top(45),
        is_top(46),
        is_top(47),
{
    lemma_twos();
    assert(pitch::PITCH_TOPS@[42] == 1243);
    lemma_level(42, 19904, 8, 4096, 70062080);
    lemma_level(42, 19920, 8, 4096, 70118400);
    assert(pow24(70062080) * 4096 <= pow24(57_272_736) * 0x8_0000 && pow24(70118400) * 4096
        > pow24(57_272_736) * 0x8_0000) by (nonlinear_arith);
    assert(pitch::PITCH_TOPS@[43] == 1173);
    lemma_level(43, 18784, 8, 16384, 66119680);
    lemma_level(43, 18800, 8, 16384, 66176000);
    assert(pow24(66119680) * 16384 <= pow24(57_272_736) * 0x8_0000 && pow24(66176000) * 16384
        > pow24(57_272_736) * 0x8_0000) by (nonlinear_arith);
    assert(pitch::PITCH_TOPS@[44] == 1107);
    lemma_level(44, 17728, 8, 65536, 62402560);
    lemma_level(44, 17744, 8, 65536, 62458880);
    assert(pow24(62402560) * 65536 <= pow24(57_272_736) * 0x8_0000 && pow24(62458880) * 65536
        > pow24(57_272_736) * 0x8_0000) by (nonlinear_arith);
    assert(pitch::PITCH_TOPS@[45] == 1045);
    lemma_level(45, 16736, 8, 262144, 58910720);
    lemma_level(45, 16752, 8, 262144, 58967040);
    assert(pow24(58910720) * 262144 <= pow24(57_272_736) * 0x8_0000 && pow24(58967040) * 262144
        > pow24(57_272_736) * 0x8_0000) by (nonlinear_arith);
    assert(pitch::PITCH_TOPS@[46] == 986);
    lemma_level(46, 15792, 8, 1048576, 55587840);
    lemma_level(46, 15808, 8, 1048576, 55644160);
    assert(pow24(55587840) * 1048576 <= pow24(57_272_736) * 0x8_0000 && pow24(55644160) * 1048576
        > pow24(57_272_736) * 0x8_0000) by (nonlinear_arith);
    assert(pitch::PITCH_TOPS@[47] == 931);
    lemma_level(47, 14912, 8, 4194304, 52490240);
    lemma_level(47, 14928, 8, 4194304, 52546560);
    assert(pow24(52490240) * 4194304 <= pow24(57_272_736) * 0x8_0000 && pow24(52546560) * 4194304
        > pow24(57_272_736) * 0x8_0000) by (nonlinear_arith);
}

#[verifier::spinoff_prover]
proof fn lemma_tops_48()
    ensures
        is_top(48),
        is_top(49),
        is_top(50),
        is_top(51),
        is_top(52),
        is_top(53),
{
    lemma_twos();
    assert(pitch::PITCH_TOPS@[48] == 879);
    lemma_level(48, 14080, 16, 1, 99123200);
    lemma_level(48, 14096, 16, 1, 99235840);
    assert(pow24(99123200) * 1 <= pow24(57_272_736) * 0x8_0000 && pow24(99235840) * 1
        > pow24(57_272_736) * 0x8_0000) by (nonlinear_arith);
    assert(pitch::PITCH_TOPS@[49] == 829);
    lemma_level(49, 13280, 16, 4, 93491200);
    lemma_level(49, 13296, 16, 4, 93603840);
    assert(pow24(93491200) * 4 <= pow24(57_272_736) * 0x8_0000 && pow24(93603840) * 4
        > pow24(57_272_736) * 0x8_0000) by (nonlinear_arith);
    assert(pitch::PITCH_TOPS@[50] == 783);
    lemma_level(50, 12544, 16, 16, 88309760);
    lemma_level(50, 12560, 16, 16, 88422400);
    assert(pow24(88309760) * 16 <= pow24(57_272_736) * 0x8_0000 && pow24(88422400) * 16
        > pow24(57_272_736) * 0x8_0000) by (nonlinear_arith);
    assert(pitch::PITCH_TOPS@[51] == 739);
    lemma_level(51, 11840, 16, 64, 83353600);
    lemma_level(51, 11856, 16, 64, 83466240);
    assert(pow24(83353600) * 64 <= pow24(57_272_736) * 0x8_0000 && pow24(83466240) * 64
        > pow24(57_272_736) * 0x8_0000) by (nonlinear_arith);
    assert(pitch::PITCH_TOPS@[52] == 697);
    lemma_level(52, 11168, 16, 256, 78622720);
    lemma_level(52, 11184, 16, 256, 78735360);
    assert(pow24(78622720) * 256 <= pow24(57_272_736) * 0x8_0000 && pow24(78735360) * 256
        > pow24(57_272_736) * 0x8_0000) by (nonlinear_arith);
    assert(pitch::PITCH_TOPS@[53] == 658);
    lemma_level(53, 10544, 16, 1024, 74229760);
    lemma_level(53, 10560, 16, 1024, 74342400);
    assert(pow24(74229760) * 1024 <= pow24(57_272_736) * 0x8_0000 && pow24(74342400) * 1024
        > pow24(57_272_736) * 0x8_0000) by (nonlinear_arith);
}

#[verifier::spinoff_prover]
proof fn lemma_tops_54()
    ensures
        is_top(54),
        is_top(55),
        is_top(56),
        is_top(57),
        is_top(58),
        is_top(59),
{
    lemma_twos();
    assert(pitch::PITCH_TOPS@[54] == 621);
    lemma_level(54, 9952, 16, 4096, 70062080);
    lemma_level(54, 9968, 16, 4096, 70174720);
    assert(pow24(70062080) * 4096 <= pow24(57_272_736) * 0x8_0000 && pow24(70174720) * 4096
        > pow24(57_272_736) * 0x8_0000) by (nonlinear_arith);
    assert(pitch::PITCH_TOPS@[55] == 586);
    lemma_level(55, 9392, 16, 16384, 66119680);
    lemma_level(55, 9408, 16, 16384, 66232320);
    assert(pow24(66119680) * 16384 <= pow24(57_272_736) * 0x8_0000 && pow24(66232320) * 16384
        > pow24(57_272_736) * 0x8_0000) by (nonlinear_arith);
    assert(pitch::PITCH_TOPS@[56] == 553);
    lemma_level(56, 8864, 16, 65536, 62402560);
    lemma_level(56, 8880, 16, 65536, 62515200);
    assert(pow24(62402560) * 65536 <= pow24(57_272_736) * 0x8_0000 && pow24(62515200) * 65536
        > pow24(57_272_736) * 0x8_0000) by (nonlinear_arith);
    assert(pitch::PITCH_TOPS@[57] == 522);
    lemma_level(57, 8368, 16, 262144, 58910720);
    lemma_level(57, 8384, 16, 262144, 59023360);
    assert(pow24(58910720) * 262144 <= pow24(57_272_736) * 0x8_0000 && pow24(59023360) * 262144
        > pow24(57_272_736) * 0x8_0000) by (nonlinear_arith);
    assert(pitch::PITCH_TOPS@[58] == 492);
    lemma_level(58, 7888, 16, 1048576, 55531520);
    lemma_level(58, 7904, 16, 1048576, 55644160);
    assert(pow24(55531520) * 1048576 <= pow24(57_272_736) * 0x8_0000 && pow24(55644160) * 1048576
        > pow24(57_272_736) * 0x8_0000) by (nonlinear_arith);
    assert(pitch::PITCH_TOPS@[59] == 465);
    lemma_level(59, 7456, 16, 4194304, 52490240);
    lemma_level(59, 7472, 16, 4194304, 52602880);
    assert(pow24(52490240) * 4194304 <= pow24(57_272_736) * 0x8_0000 && pow24(52602880) * 4194304
        > pow24(57_272_736) * 0x8_0000) by (nonlinear_arith);
}

#[verifier::spinoff_prover]
proof fn lemma_tops_60()
    ensures
        is_top(60),
        is_top(61),
        is_top(62),
        is_top(63),
        is_top(64),
        is_top(65),
{
    lemma_twos();
    assert(pitch::PITCH_TOPS@[60] == 439);
    lemma_level(60, 7040, 32, 1, 99123200);
    lemma_level(60, 7056, 32, 1, 99348480);
    assert(pow24(99123200) * 1 <= pow24(57_272_736) * 0x8_0000 && pow24(99348480) * 1
        > pow24(57_272_736) * 0x8_0000) by (nonlinear_arith);
    assert(pitch::PITCH_TOPS@[61] == 414);
    lemma_level(61, 6640, 32, 4, 93491200);
    lemma_level(61, 6656, 32, 4, 93716480);
    assert(pow24(93491200) * 4 <= pow24(57_272_736) * 0x8_0000 && pow24(93716480) * 4
        > pow24(57_272_736) * 0x8_0000) by (nonlinear_arith);
    assert(pitch::PITCH_TOPS@[62] == 391);
    lemma_level(62, 6272, 32, 16, 88309760);
    lemma_level(62, 6288, 32, 16, 88535040);
    assert(pow24(88309760) * 16 <= pow24(57_272_736) * 0x8_0000 && pow24(88535040) * 16
        > pow24(57_272_736) * 0x8_0000) by (nonlinear_arith);
    assert(pitch::PITCH_TOPS@[63] == 369);
    lemma_level(63, 5920, 32, 64, 83353600);
    lemma_level(63, 5936, 32, 64, 83578880);
    assert(pow24(83353600) * 64 <= pow24(57_272_736) * 0x8_0000 && pow24(83578880) * 64
        > pow24(57_272_736) * 0x8_0000) by (nonlinear_arith);
    assert(pitch::PITCH_TOPS@[64] == 348);
    lemma_level(64, 5584, 32, 256, 78622720);
    lemma_level(64, 5600, 32, 256, 78848000);
    assert(pow24(78622720) * 256 <= pow24(57_272_736) * 0x8_0000 && pow24(78848000) * 256
        > pow24(57_272_736) * 0x8_0000) by (nonlinear_arith);
    assert(pitch::PITCH_TOPS@[65] == 328);
    lemma_level(65, 5264, 32, 1024, 74117120);
    lemma_level(65, 5280, 32, 1024, 74342400);
    assert(pow24(74117120) * 1024 <= pow24(57_272_736) * 0x8_0000 && pow24(74342400) * 1024
        > pow24(57_272_736) * 0x8_0000) by (nonlinear_arith);
}

#[verifier::spinoff_prover]
proof fn lemma_tops_66()
    ensures
        is_top(66),
        is_top(67),
        is_top(68),
        is_top(69),
        is_top(70),
        is_top(71),
{
    lemma_twos();
    assert(pitch::PITCH_TOPS@[66] == 310);
    lemma_level(66, 4976, 32, 4096, 70062080);
    lemma_level(66, 4992, 32, 4096, 70287360);
    assert(pow24(70062080) * 4096 <= pow24(57_272_736) * 0x8_0000 && pow24(70287360) * 4096
        > pow24(57_272_736) * 0x8_0000) by (nonlinear_arith);
    assert(pitch::PITCH_TOPS@[67] == 292);
    lemma_level(67, 4688, 32, 16384, 66007040);
    lemma_level(67, 4704, 32, 16384, 66232320);
    assert(pow24(66007040) * 16384 <= pow24(57_272_736) * 0x8_0000 && pow24(66232320) * 16384
        > pow24(57_272_736) * 0x8_0000) by (nonlinear_arith);
    assert(pitch::PITCH_TOPS@[68] == 276);
    lemma_level(68, 4432, 32, 65536, 62402560);
    lemma_level(68, 4448, 32, 65536, 62627840);
    assert(pow24(62402560) * 65536 <= pow24(57_272_736) * 0x8_0000 && pow24(62627840) * 65536
        > pow24(57_272_736) * 0x8_0000) by (nonlinear_arith);
    assert(pitch::PITCH_TOPS@[69] == 260);
    lemma_level(69, 4176, 32, 262144, 58798080);
    lemma_level(69, 4192, 32, 262144, 59023360);
    assert(pow24(58798080) * 262144 <= pow24(57_272_736) * 0x8_0000 && pow24(59023360) * 262144
        > pow24(57_272_736) * 0x8_0000) by (nonlinear_arith);
    assert(pitch::PITCH_TOPS@[70] == 245);
    lemma_level(70, 3936, 32, 1048576, 55418880);
    lemma_level(70, 3952, 32, 1048576, 55644160);
    assert(pow24(55418880) * 1048576 <= pow24(57_272_736) * 0x8_0000 && pow24(55644160) * 1048576
        > pow24(57_272_736) * 0x8_0000) by (nonlinear_arith);
    assert(pitch::PITCH_TOPS@[71] == 232);
    lemma_level(71, 3728, 32, 4194304, 52490240);
    lemma_level(71, 3744, 32, 4194304, 52715520);
    assert(pow24(52490240) * 4194304 <= pow24(57_272_736) * 0x8_0000 && pow24(52715520) * 4194304
        > pow24(57_272_736) * 0x8_0000) by (nonlinear_arith);
}

#[verifier::spinoff_prover]
proof fn lemma_tops_72()
    ensures
        is_top(72),
        is_top(73),
        is_top(74),
        is_top(75),
        is_top(76),
        is_top(77),
{
    lemma_twos();
    assert(pitch::PITCH_TOPS@[72] == 219);
    lemma_level(72, 3520, 64, 1, 99123200);
    lemma_level(72, 3536, 64, 1, 99573760);
    assert(pow24(99123200) * 1 <= pow24(57_272_736) * 0x8_0000 && pow24(99573760) * 1
        > pow24(57_272_736) * 0x8_0000) by (nonlinear_arith);
    assert(pitch::PITCH_TOPS@[73] == 206);
    lemma_level(73, 3312, 64, 4, 93265920);
    lemma_level(73, 3328, 64, 4, 93716480);
    assert(pow24(93265920) * 4 <= pow24(57_272_736) * 0x8_0000 && pow24(93716480) * 4
        > pow24(57_272_736) * 0x8_0000) by (nonlinear_arith);
    assert(pitch::PITCH_TOPS@[74] == 195);
    lemma_level(74, 3136, 64, 16, 88309760);
    lemma_level(74, 3152, 64, 16, 88760320);
    assert(pow24(88309760) * 16 <= pow24(57_272_736) * 0x8_0000 && pow24(88760320) * 16
        > pow24(57_272_736) * 0x8_0000) by (nonlinear_arith);
    assert(pitch::PITCH_TOPS@[75] == 184);
    lemma_level(75, 2960, 64, 64, 83353600);
    lemma_level(75, 2976, 64, 64, 83804160);
    assert(pow24(83353600) * 64 <= pow24(57_272_736) * 0x8_0000 && pow24(83804160) * 64
        > pow24(57_272_736) * 0x8_0000) by (nonlinear_arith);
    assert(pitch::PITCH_TOPS@[76] == 173);
    lemma_level(76, 2784, 64, 256, 78397440);
    lemma_level(76, 2800, 64, 256, 78848000);
    assert(pow24(78397440) * 256 <= pow24(57_272_736) * 0x8_0000 && pow24(78848000) * 256
        > pow24(57_272_736) * 0x8_0000) by (nonlinear_arith);
    assert(pitch::PITCH_TOPS@[77] == 163);
    lemma_level(77, 2624, 64, 1024, 73891840);
    lemma_level(77, 2640, 64, 1024, 74342400);
    assert(pow24(73891840) * 1024 <= pow24(57_272_736) * 0x8_0000 && pow24(74342400) * 1024
        > pow24(57_272_736) * 0x8_0000) by (nonlinear_arith);
}

#[verifier::spinoff_prover]
proof fn lemma_tops_78()
    ensures
        is_top(78),
        is_top(79),
        is_top(80),
        is_top(81),
        is_top(82),
        is_top(83),
{
    lemma_twos();
    assert(pitch::PITCH_TOPS@[78] == 154);
    lemma_level(78, 2480, 64, 4096, 69836800);
    lemma_level(78, 2496, 64, 4096, 70287360);
    assert(pow24(69836800) * 4096 <= pow24(57_272_736) * 0x8_0000 && pow24(70287360) * 4096
        > pow24(57_272_736) * 0x8_0000) by (nonlinear_arith);
    assert(pitch::PITCH_TOPS@[79] == 145);
    lemma_level(79, 2336, 64, 16384, 65781760);
    lemma_level(79, 2352, 64, 16384, 66232320);
    assert(pow24(65781760) * 16384 <= pow24(57_272_736) * 0x8_0000 && pow24(66232320) * 16384
        > pow24(57_272_736) * 0x8_0000) by (nonlinear_arith);
    assert(pitch::PITCH_TOPS@[80] == 137);
    lemma_level(80, 2208, 64, 65536, 62177280);
    lemma_level(80, 2224, 64, 65536, 62627840);
    assert(pow24(62177280) * 65536 <= pow24(57_272_736) * 0x8_0000 && pow24(62627840) * 65536
        > pow24(57_272_736) * 0x8_0000) by (nonlinear_arith);
    assert(pitch::PITCH_TOPS@[81] == 129);
    lemma_level(81, 2080, 64, 262144, 58572800);
    lemma_level(81, 2096, 64, 262144, 59023360);
    assert(pow24(58572800) * 262144 <= pow24(57_272_736) * 0x8_0000 && pow24(59023360) * 262144
        > pow24(57_272_736) * 0x8_0000) by (nonlinear_arith);
    assert(pitch::PITCH_TOPS@[82] == 122);
    lemma_level(82, 1968, 64, 1048576, 55418880);
    lemma_level(82, 1984, 64, 1048576, 55869440);
    assert(pow24(55418880) * 1048576 <= pow24(57_272_736) * 0x8_0000 && pow24(55869440) * 1048576
        > pow24(57_272_736) * 0x8_0000) by (nonlinear_arith);
    assert(pitch::PITCH_TOPS@[83] == 115);
    lemma_level(83, 1856, 64, 4194304, 52264960);
    lemma_level(83, 1872, 64, 4194304, 52715520);
    assert(pow24(52264960) * 4194304 <= pow24(57_272_736) * 0x8_0000 && pow24(52715520) * 4194304
        > pow24(57_272_736) * 0x8_0000) by (nonlinear_arith);
}

#[verifier::spinoff_prover]
proof fn lemma_tops_84()
    ensures
        is_top(84),
        is_top(85),
        is_top(86),
        is_top(87),
        is_top(88),
        is_top(89),
{
    lemma_twos();
    assert(pitch::PITCH_TOPS@[84] == 109);
    lemma_level(84, 1760, 128, 1, 99123200);
    lemma_level(84, 1776, 128, 1, 100024320);
    assert(pow24(99123200) * 1 <= pow24(57_272_736) * 0x8_0000 && pow24(100024320) * 1
        > pow24(57_272_736) * 0x8_0000) by (nonlinear_arith);
    assert(pitch::PITCH_TOPS@[85] == 102);
    lemma_level(85, 1648, 128, 4, 92815360);
    lemma_level(85, 1664, 128, 4, 93716480);
    assert(pow24(92815360) * 4 <= pow24(57_272_736) * 0x8_0000 && pow24(93716480) * 4
        > pow24(57_272_736) * 0x8_0000) by (nonlinear_arith);
    assert(pitch::PITCH_TOPS@[86] == 97);
    lemma_level(86, 1568, 128, 16, 88309760);
    lemma_level(86, 1584, 128, 16, 89210880);
    assert(pow24(88309760) * 16 <= pow24(57_272_736) * 0x8_0000 && pow24(89210880) * 16
        > pow24(57_272_736) * 0x8_0000) by (nonlinear_arith);
    assert(pitch::PITCH_TOPS@[87] == 91);
    lemma_level(87, 1472, 128, 64, 82903040);
    lemma_level(87, 1488, 128, 64, 83804160);
    assert(pow24(82903040) * 64 <= pow24(57_272_736) * 0x8_0000 && pow24(83804160) * 64
        > pow24(57_272_736) * 0x8_0000) by (nonlinear_arith);
    assert(pitch::PITCH_TOPS@[88] == 86);
    lemma_level(88, 1392, 128, 256, 78397440);
    lemma_level(88, 1408, 128, 256, 79298560);
    assert(pow24(78397440) * 256 <= pow24(57_272_736) * 0x8_0000 && pow24(79298560) * 256
        > pow24(57_272_736) * 0x8_0000) by (nonlinear_arith);
    assert(pitch::PITCH_TOPS@[89] == 81);
    lemma_level(89, 1312, 128, 1024, 73891840);
    lemma_level(89, 1328, 128, 1024, 74792960);
    assert(pow24(73891840) * 1024 <= pow24(57_272_736) * 0x8_0000 && pow24(74792960) * 1024
        > pow24(57_272_736) * 0x8_0000) by (nonlinear_arith);
}

#[verifier::spinoff_prover]
proof fn lemma_tops_90()
    ensures
        is_top(90),
        is_top(91),
        is_top(92),
        is_top(93),
        is_top(94),
        is_top(95),
{
    lemma_twos();
    assert(pitch::PITCH_TOPS@[90] == 76);
    lemma_level(90, 1232, 128, 4096, 69386240);
    lemma_level(90, 1248, 128, 4096, 70287360);
    assert(pow24(69386240) * 4096 <= pow24(57_272_736) * 0x8_0000 && pow24(70287360) * 4096
        > pow24(57_272_736) * 0x8_0000) by (nonlinear_arith);
    assert(pitch::PITCH_TOPS@[91] == 72);
    lemma_level(91, 1168, 128, 16384, 65781760);
    lemma_level(91, 1184, 128, 16384, 66682880);
    assert(pow24(65781760) * 16384 <= pow24(57_272_736) * 0x8_0000 && pow24(66682880) * 16384
        > pow24(57_272_736) * 0x8_0000) by (nonlinear_arith);
    assert(pitch::PITCH_TOPS@[92] == 68);
    lemma_level(92, 1104, 128, 65536, 62177280);
    lemma_level(92, 1120, 128, 65536, 63078400);
    assert(pow24(62177280) * 65536 <= pow24(57_272_736) * 0x8_0000 && pow24(63078400) * 65536
        > pow24(57_272_736) * 0x8_0000) by (nonlinear_arith);
    assert(pitch::PITCH_TOPS@[93] == 64);
    lemma_level(93, 1040, 128, 262144, 58572800);
    lemma_level(93, 1056, 128, 262144, 59473920);
    assert(pow24(58572800) * 262144 <= pow24(57_272_736) * 0x8_0000 && pow24(59473920) * 262144
        > pow24(57_272_736) * 0x8_0000) by (nonlinear_arith);
    assert(pitch::PITCH_TOPS@[94] == 60);
    lemma_level(94, 976, 128, 1048576, 54968320);
    lemma_level(94, 992, 128, 1048576, 55869440);
    assert(pow24(54968320) * 1048576 <= pow24(57_272_736) * 0x8_0000 && pow24(55869440) * 1048576
        > pow24(57_272_736) * 0x8_0000) by (nonlinear_arith);
    assert(pitch::PITCH_TOPS@[95] == 57);
    lemma_level(95, 928, 128, 4194304, 52264960);
    lemma_level(95, 944, 128, 4194304, 53166080);
    assert(pow24(52264960) * 4194304 <= pow24(57_272_736) * 0x8_0000 && pow24(53166080) * 4194304
        > pow24(57_272_736) * 0x8_0000) by (nonlinear_arith);
}

#[verifier::spinoff_prover]
proof fn lemma_tops_96()
    ensures
        is_top(96),
        is_top(97),
        is_top(98),
        is_top(99),
        is_top(100),
        is_top(101),
{
    lemma_twos();
    assert(pitch::PITCH_TOPS@[96] == 54);
    lemma_level(96, 880, 256, 1, 99123200);
    lemma_level(96, 896, 256, 1, 100925440);
    assert(pow24(99123200) * 1 <= pow24(57_272_736) * 0x8_0000 && pow24(100925440) * 1
        > pow24(57_272_736) * 0x8_0000) by (nonlinear_arith);
    assert(pitch::PITCH_TOPS@[97] == 50);
    lemma_level(97, 816, 256, 4, 91914240);
    lemma_level(97, 832, 256, 4, 93716480);
    assert(pow24(91914240) * 4 <= pow24(57_272_736) * 0x8_0000 && pow24(93716480) * 4
        > pow24(57_272_736) * 0x8_0000) by (nonlinear_arith);
    assert(pitch::PITCH_TOPS@[98] == 48);
    lemma_level(98, 784, 256, 16, 88309760);
    lemma_level(98, 800, 256, 16, 90112000);
    assert(pow24(88309760) * 16 <= pow24(57_272_736) * 0x8_0000 && pow24(90112000) * 16
        > pow24(57_272_736) * 0x8_0000) by (nonlinear_arith);
    assert(pitch::PITCH_TOPS@[99] == 45);
    lemma_level(99, 736, 256, 64, 82903040);
    lemma_level(99, 752, 256, 64, 84705280);
    assert(pow24(82903040) * 64 <= pow24(57_272_736) * 0x8_0000 && pow24(84705280) * 64
        > pow24(57_272_736) * 0x8_0000) by (nonlinear_arith);
    assert(pitch::PITCH_TOPS@[100] == 42);
    lemma_level(100, 688, 256, 256, 77496320);
    lemma_level(100, 704, 256, 256, 79298560);
    assert(pow24(77496320) * 256 <= pow24(57_272_736) * 0x8_0000 && pow24(79298560) * 256
        > pow24(57_272_736) * 0x8_0000) by (nonlinear_arith);
    assert(pitch::PITCH_TOPS@[101] == 40);
    lemma_level(101, 656, 256, 1024, 73891840);
    lemma_level(101, 672, 256, 1024, 75694080);
    assert(pow24(73891840) * 1024 <= pow24(57_272_736) * 0x8_0000 && pow24(75694080) * 1024
        > pow24(57_272_736) * 0x8_0000) by (nonlinear_arith);
}

#[verifier::spinoff_prover]
proof fn lemma_tops_102()
    ensures
        is_top(102),
        is_top(103),
        is_top(104),
        is_top(105),
        is_top(106),
        is_top(107),
{
    lemma_twos();
    assert(pitch::PITCH_TOPS@[102] == 37);
    lemma_level(102, 608, 256, 4096, 68485120);
    lemma_level(102, 624, 256, 4096, 70287360);
    assert(pow24(68485120) * 4096 <= pow24(57_272_736) * 0x8_0000 && pow24(70287360) * 4096
        > pow24(57_272_736) * 0x8_0000) by (nonlinear_arith);
    assert(pitch::PITCH_TOPS@[103] == 35);
    lemma_level(103, 576, 256, 16384, 64880640);
    lemma_level(103, 592, 256, 16384, 66682880);
    assert(pow24(64880640) * 16384 <= pow24(57_272_736) * 0x8_0000 && pow24(66682880) * 16384
        > pow24(57_272_736) * 0x8_0000) by (nonlinear_arith);
    assert(pitch::PITCH_TOPS@[104] == 33);
    lemma_level(104, 544, 256, 65536, 61276160);
    lemma_level(104, 560, 256, 65536, 63078400);
    assert(pow24(61276160) * 65536 <= pow24(57_272_736) * 0x8_0000 && pow24(63078400) * 65536
        > pow24(57_272_736) * 0x8_0000) by (nonlinear_arith);
    assert(pitch::PITCH_TOPS@[105] == 31);
    lemma_level(105, 512, 256, 262144, 57671680);
    lemma_level(105, 528, 256, 262144, 59473920);
    assert(pow24(57671680) * 262144 <= pow24(57_272_736) * 0x8_0000 && pow24(59473920) * 262144
        > pow24(57_272_736) * 0x8_0000) by (nonlinear_arith);
    assert(pitch::PITCH_TOPS@[106] == 29);
    lemma_level(106, 480, 256, 1048576, 54067200);
    lemma_level(106, 496, 256, 1048576, 55869440);
    assert(pow24(54067200) * 1048576 <= pow24(57_272_736) * 0x8_0000 && pow24(55869440) * 1048576
        > pow24(57_272_736) * 0x8_0000) by (nonlinear_arith);
    assert(pitch::PITCH_TOPS@[107] == 28);
    lemma_level(107, 464, 256, 4194304, 52264960);
    lemma_level(107, 480, 256, 4194304, 54067200);
    assert(pow24(52264960) * 4194304 <= pow24(57_272_736) * 0x8_0000 && pow24(54067200) * 4194304
        > pow24(57_272_736) * 0x8_0000) by (nonlinear_arith);
}

#[verifier::spinoff_prover]
proof fn lemma_tops_108()
    ensures
        is_top(108),
        is_top(109),
        is_top(110),
        is_top(111),
        is_top(112),
        is_top(113),
{
    lemma_twos();
    assert(pitch::PITCH_TOPS@[108] == 26);
    lemma_level(108, 432, 512, 1, 97320960);
    lemma_level(108, 448, 512, 1, 100925440);
    assert(pow24(97320960) * 1 <= pow24(57_272_736) * 0x8_0000 && pow24(100925440) * 1
        > pow24(57_272_736) * 0x8_0000) by (nonlinear_arith);
    assert(pitch::PITCH_TOPS@[109] == 24);
    lemma_level(109, 400, 512, 4, 90112000);
    lemma_level(109, 416, 512, 4, 93716480);
    assert(pow24(90112000) * 4 <= pow24(57_272_736) * 0x8_0000 && pow24(93716480) * 4
        > pow24(57_272_736) * 0x8_0000) by (nonlinear_arith);
    assert(pitch::PITCH_TOPS@[110] == 23);
    lemma_level(110, 384, 512, 16, 86507520);
    lemma_level(110, 400, 512, 16, 90112000);
    assert(pow24(86507520) * 16 <= pow24(57_272_736) * 0x8_0000 && pow24(90112000) * 16
        > pow24(57_272_736) * 0x8_0000) by (nonlinear_arith);
    assert(pitch::PITCH_TOPS@[111] == 22);
    lemma_level(111, 368, 512, 64, 82903040);
    lemma_level(111, 384, 512, 64, 86507520);
    assert(pow24(82903040) * 64 <= pow24(57_272_736) * 0x8_0000 && pow24(86507520) * 64
        > pow24(57_272_736) * 0x8_0000) by (nonlinear_arith);
    assert(pitch::PITCH_TOPS@[112] == 20);
    lemma_level(112, 336, 512, 256, 75694080);
    lemma_level(112, 352, 512, 256, 79298560);
    assert(pow24(75694080) * 256 <= pow24(57_272_736) * 0x8_0000 && pow24(79298560) * 256
        > pow24(57_272_736) * 0x8_0000) by (nonlinear_arith);
    assert(pitch::PITCH_TOPS@[113] == 19);
    lemma_level(113, 320, 512, 1024, 72089600);
    lemma_level(113, 336, 512, 1024, 75694080);
    assert(pow24(72089600) * 1024 <= pow24(57_272_736) * 0x8_0000 && pow24(75694080) * 1024
        > pow24(57_272_736) * 0x8_0000) by (nonlinear_arith);
}

#[verifier::spinoff_prover]
proof fn lemma_tops_114()
    ensures
        is_top(114),
        is_top(115),
        is_top(116),
        is_top(117),
        is_top(118),
        is_top(119),
{
    lemma_twos();
    assert(pitch::PITCH_TOPS@[114] == 18);
    lemma_level(114, 304, 512, 4096, 68485120);
    lemma_level(114, 320, 512, 4096, 72089600);
    assert(pow24(68485120) * 4096 <= pow24(57_272_736) * 0x8_0000 && pow24(72089600) * 4096
        > pow24(57_272_736) * 0x8_0000) by (nonlinear_arith);
    assert(pitch::PITCH_TOPS@[115] == 17);
    lemma_level(115, 288, 512, 16384, 64880640);
    lemma_level(115, 304, 512, 16384, 68485120);
    assert(pow24(64880640) * 16384 <= pow24(57_272_736) * 0x8_0000 && pow24(68485120) * 16384
        > pow24(57_272_736) * 0x8_0000) by (nonlinear_arith);
    assert(pitch::PITCH_TOPS@[116] == 16);
    lemma_level(116, 272, 512, 65536, 61276160);
    lemma_level(116, 288, 512, 65536, 64880640);
    assert(pow24(61276160) * 65536 <= pow24(57_272_736) * 0x8_0000 && pow24(64880640) * 65536
        > pow24(57_272_736) * 0x8_0000) by (nonlinear_arith);
    assert(pitch::PITCH_TOPS@[117] == 15);
    lemma_level(117, 256, 512, 262144, 57671680);
    lemma_level(117, 272, 512, 262144, 61276160);
    assert(pow24(57671680) * 262144 <= pow24(57_272_736) * 0x8_0000 && pow24(61276160) * 262144
        > pow24(57_272_736) * 0x8_0000) by (nonlinear_arith);
    assert(pitch::PITCH_TOPS@[118] == 14);
    lemma_level(118, 240, 512, 1048576, 54067200);
    lemma_level(118, 256, 512, 1048576, 57671680);
    assert(pow24(54067200) * 1048576 <= pow24(57_272_736) * 0x8_0000 && pow24(57671680) * 1048576
        > pow24(57_272_736) * 0x8_0000) by (nonlinear_arith);
    assert(pitch::PITCH_TOPS@[119] == 13);
    lemma_level(119, 224, 512, 4194304, 50462720);
    lemma_level(119, 240, 512, 4194304, 54067200);
    assert(pow24(50462720) * 4194304 <= pow24(57_272_736) * 0x8_0000 && pow24(54067200) * 4194304
        > pow24(57_272_736) * 0x8_0000) by (nonlinear_arith);
}

#[verifier::spinoff_prover]
proof fn lemma_tops_120()
    ensures
        is_top(120),
        is_top(121),
        is_top(122),
        is_top(123),
        is_top(124),
        is_top(125),
{
    lemma_twos();
    assert(pitch::PITCH_TOPS@[120] == 12);
    lemma_level(120, 208, 1024, 1, 93716480);
    lemma_level(120, 224, 1024, 1, 100925440);
    assert(pow24(93716480) * 1 <= pow24(57_272_736) * 0x8_0000 && pow24(100925440) * 1
        > pow24(57_272_736) * 0x8_0000) by (nonlinear_arith);
    assert(pitch::PITCH_TOPS@[121] == 11);
    lemma_level(121, 192, 1024, 4, 86507520);
    lemma_level(121, 208, 1024, 4, 93716480);
    assert(pow24(86507520) * 4 <= pow24(57_272_736) * 0x8_0000 && pow24(93716480) * 4
        > pow24(57_272_736) * 0x8_0000) by (nonlinear_arith);
    assert(pitch::PITCH_TOPS@[122] == 11);
    lemma_level(122, 192, 1024, 16, 86507520);
    lemma_level(122, 208, 1024, 16, 93716480);
    assert(pow24(86507520) * 16 <= pow24(57_272_736) * 0x8_0000 && pow24(93716480) * 16
        > pow24(57_272_736) * 0x8_0000) by (nonlinear_arith);
    assert(pitch::PITCH_TOPS@[123] == 10);
    lemma_level(123, 176, 1024, 64, 79298560);
    lemma_level(123, 192, 1024, 64, 86507520);
    assert(pow24(79298560) * 64 <= pow24(57_272_736) * 0x8_0000 && pow24(86507520) * 64
        > pow24(57_272_736) * 0x8_0000) by (nonlinear_arith);
    assert(pitch::PITCH_TOPS@[124] == 9);
    lemma_level(124, 160, 1024, 256, 72089600);
    lemma_level(124, 176, 1024, 256, 79298560);
    assert(pow24(72089600) * 256 <= pow24(57_272_736) * 0x8_0000 && pow24(79298560) * 256
        > pow24(57_272_736) * 0x8_0000) by (nonlinear_arith);
    assert(pitch::PITCH_TOPS@[125] == 9);
    lemma_level(125, 160, 1024, 1024, 72089600);
    lemma_level(125, 176, 1024, 1024, 79298560);
    assert(pow24(72089600) * 1024 <= pow24(57_272_736) * 0x8_0000 && pow24(79298560) * 1024
        > pow24(57_272_736) * 0x8_0000) by (nonlinear_arith);
}

#[verifier::spinoff_prover]
proof fn lemma_tops_126()
    ensures
        is_top(126),
        is_top(127),
        is_top(128),
{
    lemma_twos();
    assert(pitch::PITCH_TOPS@[126] == 8);
    lemma_level(126, 144, 1024, 4096, 64880640);
    lemma_level(126, 160, 1024, 4096, 72089600);
    assert(pow24(64880640) * 4096 <= pow24(57_272_736) * 0x8_0000 && pow24(72089600) * 4096
        > pow24(57_272_736) * 0x8_0000) by (nonlinear_arith);
    assert(pitch::PITCH_TOPS@[127] == 8);
    lemma_level(127, 144, 1024, 16384, 64880640);
    lemma_level(127, 160, 1024, 16384, 72089600);
    assert(pow24(64880640) * 16384 <= pow24(57_272_736) * 0x8_0000 && pow24(72089600) * 16384
        > pow24(57_272_736) * 0x8_0000) by (nonlinear_arith);
    assert(pitch::PITCH_TOPS@[128] == 7);
    lemma_level(128, 128, 1024, 65536, 57671680);
    lemma_level(128, 144, 1024, 65536, 64880640);
    assert(pow24(57671680) * 65536 <= pow24(57_272_736) * 0x8_0000 && pow24(64880640) * 65536
        > pow24(57_272_736) * 0x8_0000) by (nonlinear_arith);
}

proof fn lemma_top(n: nat)
    requires
        n <= 128,
    ensures
        is_top(n),
{
    lemma_tops_0();
    lemma_tops_6();
    lemma_tops_12();
    lemma_tops_18();
    lemma_tops_24();
    lemma_tops_30();
    lemma_tops_36();
    lemma_tops_42();
    lemma_tops_48();
    lemma_tops_54();
    lemma_tops_60();
    lemma_tops_66();
    lemma_tops_72();
    lemma_tops_78();
    lemma_tops_84();
    lemma_tops_90();
    lemma_tops_96();
    lemma_tops_102();
    lemma_tops_108();
    lemma_tops_114();
    lemma_tops_120();
    lemma_tops_126();
}

/// The note of a pulse period is the nearest one.
pub proof fn lemma_note_at(q: nat)
    ensures
        match pitch::note_at(q) {
            Some(n) => n < 128 && is_nearest(n as nat, 16 * (q + 1)),
            None => !reaches(0, 16 * (q + 1)) || reaches(128, 16 * (q + 1)),
        },
{
    lemma_search(q, 129);
}

/// A note is reached when the period is not past its table entry.
proof fn lemma_table(n: nat, q: nat)
    requires
        n <= 128,
    ensures
        reaches(n, 16 * (q + 1)) == (q <= pitch::PITCH_TOPS@[n as int]),
{
    lemma_top(n);
    let t = pitch::PITCH_TOPS@[n as int] as nat;
    if q <= t {
        lemma_reaches_more(n, 16 * (t + 1), 16 * (q + 1));
    } else if reaches(n, 16 * (q + 1)) {
        lemma_reaches_more(n, 16 * (q + 1), 16 * (t + 2));
    }
}

proof fn lemma_search(q: nat, k: nat)
    requires
        k <= 129,
        forall|n: nat| k <= n <= 128 ==> !#[trigger] reaches(n, 16 * (q + 1)),
    ensures
        match pitch::note_below(q, k) {
            Some(n) => n < k && reaches(n, 16 * (q + 1)) && (n < 128 ==> !reaches(
                n + 1,
                16 * (q + 1),
            )),
            None => !reaches(0, 16 * (q + 1)),
        },
    decreases k,
{
    if k > 0 {
        lemma_table((k - 1) as nat, q);
        if q > pitch::PITCH_TOPS@[k - 1] {
            lemma_search(q, (k - 1) as nat);
        }
    }
}

proof fn lemma_pow24_doubles(y: int)
    ensures
        pow24(2 * y) == 0x100_0000 * pow24(y),
{
    let a = y * y * y;
    assert((2 * y) * (2 * y) * (2 * y) == 8 * a) by (nonlinear_arith)
        requires
            a == y * y * y,
    ;
    let b = a * a;
    assert((8 * a) * (8 * a) == 64 * b) by (nonlinear_arith)
        requires
            b == a * a,
    ;
    let c = b * b;
    assert((64 * b) * (64 * b) == 4096 * c) by (nonlinear_arith)
        requires
            c == b * b,
    ;
    assert((4096 * c) * (4096 * c) == 0x100_0000 * (c * c)) by (nonlinear_arith);
}

/// What reaches a note reaches the note below it.
proof fn lemma_reaches_below(n: nat, x: nat)
    requires
        reaches(n + 1, x),
    ensures
        reaches(n, x),
{
    let k = n / 12;
    let s = n % 12;
    lemma_twos_positive(k);
    lemma_twos_positive(2 * s);
    let o = twos(k);
    let y = 440 * x * o;
    assert(y >= 0) by (nonlinear_arith)
        requires
            y == 440 * x * o,
            x >= 0,
            o > 0,
    ;
    lemma_pow24_grows(0, y);
    assert(pow24(0) == 0);
    let p = pow24(y);
    let q = twos(2 * s);
    if s < 11 {
        assert((n + 1) / 12 == k && (n + 1) % 12 == s + 1);
        reveal_with_fuel(twos, 3);
        assert(twos(2 * (s + 1)) == 4 * q);
        assert(p * q <= p * (4 * q)) by (nonlinear_arith)
            requires
                p >= 0,
                q > 0,
        ;
    } else {
        assert((n + 1) / 12 == k + 1 && (n + 1) % 12 == 0);
        lemma_twos();
        assert(twos(k + 1) == 2 * o);
        assert(440 * x * (2 * o) == 2 * y) by (nonlinear_arith)
            requires
                y == 440 * x * o,
        ;
        lemma_pow24_doubles(y);
        assert(q == 4194304);
        assert(pow24(2 * y) * twos(0) == pow24(2 * y));
        assert(p * q == 4194304 * p) by (nonlinear_arith)
            requires
                q == 4194304,
        ;
    }
}

/// What reaches a note reaches all below it.
pub proof fn lemma_reaches_down(n: nat, m: nat, x: nat)
    requires
        m <= n,
        reaches(n, x),
    ensures
        reaches(m, x),
    decreases n - m,
{
    if m < n {
        lemma_reaches_below((n - 1) as nat, x);
        lemma_reaches_down((n - 1) as nat, m, x);
    }
}

/// One note at most is the nearest to a frequency.
pub proof fn law_nearest_is_one(a: nat, b: nat, x: nat)
    requires
        is_nearest(a, x),
        is_nearest(b, x),
    ensures
        a == b,
{
    if a < b {
        lemma_reaches_down(b, a + 1, x);
    } else if b < a {
        lemma_reaches_down(a, b + 1, x);
    }
}

/// A pulse sounds at the clock over 16 times its period and one: its note is
/// the nearest to that frequency. It has none where the hardware mutes it, or
/// where the nearest note is none of 0 to 127.
pub proof fn law_pulse_note_is_nearest(p: u16)
    ensures
        pitch::pitch_of(PU2, p) == pitch::pitch_of(PU1, p),
        p < 8 ==> pitch::pitch_of(PU1, p) is None,
        match pitch::pitch_of(PU1, p) {
            Some(n) => n < 128 && is_nearest(n as nat, 16 * (p as nat + 1)),
            None => p < 8 || !reaches(0, 16 * (p as nat + 1)) || reaches(
                128,
                16 * (p as nat + 1),
            ),
        },
{
    lemma_note_at(p as nat);
}

/// The triangle divides by 32: its note is the nearest to the clock over 32
/// times its period and one.
pub proof fn law_triangle_note_is_nearest(p: u16)
    ensures
        p < 2 ==> pitch::pitch_of(TRI, p) is None,
        match pitch::pitch_of(TRI, p) {
            Some(n) => n < 128 && is_nearest(n as nat, 32 * (p as nat + 1)),
            None => p < 2 || !reaches(0, 32 * (p as nat + 1)) || reaches(
                128,
                32 * (p as nat + 1),
            ),
        },
{
    lemma_note_at((2 * p + 1) as nat);
    assert(16 * ((2 * p + 1) as nat + 1) == 32 * (p as nat + 1));
}

/// At one period the triangle sounds an octave below a pulse.
pub proof fn law_triangle_is_an_octave_lower(c: usize, p: u16)
    requires
        c < TRI,
        pitch::pitch_of(c, p) is Some,
        pitch::pitch_of(c, p)->0 >= 12,
    ensures
        pitch::pitch_of(TRI, p) == Some((pitch::pitch_of(c, p)->0 - 12) as u8),
{
    law_pulse_note_is_nearest(p);
    law_triangle_note_is_nearest(p);
    let n = pitch::pitch_of(c, p)->0 as nat;
    let m = (n - 12) as nat;
    let x = 16 * (p as nat + 1);
    lemma_octave(n, x);
    lemma_octave(n + 1, x);
    assert(2 * x == 32 * (p as nat + 1));
    assert(is_nearest(m, 2 * x));
    lemma_reaches_down(m, 0, 2 * x);
    if reaches(128, 2 * x) {
        lemma_reaches_down(128, m + 1, 2 * x);
    }
    law_nearest_is_one(pitch::tri_pitch(p)->0 as nat, m, 2 * x);
}

} // verus!
