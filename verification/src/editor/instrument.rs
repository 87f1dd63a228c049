//! An instrument's parameters, as they are shown and moved.

use vstd::prelude::*;

use crate::binary;
use crate::song::Instrument;
use crate::text;

verus! {

/// What an instrument's editor shows, in order.
pub const PARAMS: usize = 6;

pub open spec fn param_name(p: int) -> Seq<char> {
    if p == 0 {
        "attack"@
    } else if p == 1 {
        "decay"@
    } else if p == 2 {
        "sustain"@
    } else if p == 3 {
        "release"@
    } else if p == 4 {
        "duty"@
    } else {
        "volume"@
    }
}

pub fn instr_param_name(p: usize) -> (r: &'static str)
    ensures
        r@ == param_name(p as int),
{
    if p == 0 {
        "attack"
    } else if p == 1 {
        "decay"
    } else if p == 2 {
        "sustain"
    } else if p == 3 {
        "release"
    } else if p == 4 {
        "duty"
    } else {
        "volume"
    }
}

/// The nearest value within bounds.
pub open spec fn bounded(v: int, lo: int, hi: int) -> int {
    if v < lo {
        lo
    } else if v > hi {
        hi
    } else {
        v
    }
}

fn bound(v: i64, lo: i64, hi: i64) -> (r: i64)
    requires
        lo <= hi,
    ensures
        r == bounded(v as int, lo as int, hi as int),
{
    if v < lo {
        lo
    } else if v > hi {
        hi
    } else {
        v
    }
}

/// An instrument with one parameter moved by a number of its own steps,
/// within its bounds.
pub open spec fn adjusted(i: Instrument, param: int, delta: i32) -> Instrument {
    if param == 0 {
        Instrument { attack_ms: bounded(i.attack_ms + 2 * delta, 0, 5000) as u16, ..i }
    } else if param == 1 {
        Instrument { decay_ms: bounded(i.decay_ms + 5 * delta, 0, 5000) as u16, ..i }
    } else if param == 2 {
        Instrument { sustain: bounded(i.sustain + 50 * delta, 0, 1000) as i32, ..i }
    } else if param == 3 {
        Instrument { release_ms: bounded(i.release_ms + 10 * delta, 0, 10000) as u16, ..i }
    } else if param == 4 {
        Instrument { duty: bounded(i.duty + 50 * delta, 50, 950) as i32, ..i }
    } else if param == 5 {
        Instrument { volume: bounded(i.volume + 50 * delta, 0, 1000) as i32, ..i }
    } else {
        i
    }
}

/// A parameter as the editor shows it: times in milliseconds, levels with
/// two decimals.
pub open spec fn param_text(i: Instrument, param: int) -> Seq<char> {
    if param == 0 {
        text::dec(i.attack_ms as nat) + " ms"@
    } else if param == 1 {
        text::dec(i.decay_ms as nat) + " ms"@
    } else if param == 2 {
        level_text(i.sustain)
    } else if param == 3 {
        text::dec(i.release_ms as nat) + " ms"@
    } else if param == 4 {
        level_text(i.duty)
    } else if param == 5 {
        level_text(i.volume)
    } else {
        Seq::empty()
    }
}

/// Thousandths, in single precision, with two decimals.
pub open spec fn level_text(m: i32) -> Seq<char> {
    if m < 0 {
        "-"@ + binary::shown((-(m as int)) as nat, 1000, binary::SINGLE as nat)
    } else {
        binary::shown(m as nat, 1000, binary::SINGLE as nat)
    }
}

fn put_level(t: &mut Vec<char>, m: i32)
    ensures
        final(t)@ == old(t)@ + level_text(m),
{
    let ghost before = t@;
    if m < 0 {
        text::put_str(t, "-");
        binary::put_shown(t, (-(m as i64)) as u128, 1000, binary::SINGLE);
    } else {
        binary::put_shown(t, m as u128, 1000, binary::SINGLE);
    }
    assert(t@ =~= before + level_text(m));
}

impl Instrument {
    /// Moves one parameter by a number of its own steps.
    pub fn adjust(&mut self, param: usize, delta: i32)
        ensures
            *final(self) == adjusted(*old(self), param as int, delta),
    {
        let d: i64 = delta as i64;
        if param == 0 {
            self.attack_ms = bound(self.attack_ms as i64 + 2 * d, 0, 5000) as u16;
        } else if param == 1 {
            self.decay_ms = bound(self.decay_ms as i64 + 5 * d, 0, 5000) as u16;
        } else if param == 2 {
            self.sustain = bound(self.sustain as i64 + 50 * d, 0, 1000) as i32;
        } else if param == 3 {
            self.release_ms = bound(self.release_ms as i64 + 10 * d, 0, 10000) as u16;
        } else if param == 4 {
            self.duty = bound(self.duty as i64 + 50 * d, 50, 950) as i32;
        } else if param == 5 {
            self.volume = bound(self.volume as i64 + 50 * d, 0, 1000) as i32;
        }
    }

    /// A parameter as the editor shows it.
    pub fn display(&self, param: usize) -> (r: String)
        ensures
            r@ == param_text(*self, param as int),
    {
        let mut t: Vec<char> = Vec::new();
        if param == 0 {
            text::put_dec(&mut t, self.attack_ms as u64);
            text::put_str(&mut t, " ms");
        } else if param == 1 {
            text::put_dec(&mut t, self.decay_ms as u64);
            text::put_str(&mut t, " ms");
        } else if param == 2 {
            put_level(&mut t, self.sustain);
        } else if param == 3 {
            text::put_dec(&mut t, self.release_ms as u64);
            text::put_str(&mut t, " ms");
        } else if param == 4 {
            put_level(&mut t, self.duty);
        } else if param == 5 {
            put_level(&mut t, self.volume);
        }
        assert(t@ =~= param_text(*self, param as int));
        text::string_of(t.as_slice())
    }
}

} // verus!
