//! What the chip was doing, frame by frame.

use vstd::prelude::*;

use crate::song::CHANNELS;

verus! {

pub const PU1: usize = 0;

pub const PU2: usize = 1;

pub const TRI: usize = 2;

pub const NOI: usize = 3;

pub const DMC: usize = 4;

/// One channel on one frame.
#[derive(Clone, Copy, Debug, PartialEq, Eq, Structural)]
pub struct ChannelFrame {
    pub period: u16,
    pub level: u8,
    /// The duty bits.
    pub duty: u8,
    /// Whether a note was started.
    pub keyed: bool,
    /// Whether the level was set rather than shaped by the hardware.
    pub constant_vol: bool,
    pub sweep: u8,
}

pub open spec fn quiet_channel() -> ChannelFrame {
    ChannelFrame {
        period: 0,
        level: 0,
        duty: 0,
        keyed: false,
        constant_vol: false,
        sweep: 0,
    }
}

impl Default for ChannelFrame {
    fn default() -> (c: ChannelFrame)
        ensures
            c == quiet_channel(),
    {
        ChannelFrame {
            period: 0,
            level: 0,
            duty: 0,
            keyed: false,
            constant_vol: false,
            sweep: 0,
        }
    }
}

/// All channels on one frame, and the sample address where one was started.
#[derive(Clone, Copy, Debug)]
pub struct FrameTrace {
    pub frame: u32,
    pub ch: [ChannelFrame; CHANNELS],
    pub dpcm: Option<u8>,
}

impl FrameTrace {
    /// A silent frame.
    pub fn silent(frame: u32) -> (f: FrameTrace)
        ensures
            f.frame == frame,
            f.dpcm is None,
            forall|c: int| 0 <= c < CHANNELS ==> #[trigger] f.ch@[c] == quiet_channel(),
    {
        let q: ChannelFrame = ChannelFrame::default();
        FrameTrace { frame, ch: [q; CHANNELS], dpcm: None }
    }
}

/// Whether a channel starts a note that is heard. A key-on without volume
/// makes no sound.
pub open spec fn strikes(f: FrameTrace, c: int) -> bool {
    f.ch@[c].keyed && f.ch@[c].level > 0
}

/// Whether any channel starts a note that is heard.
pub open spec fn has_onset(f: FrameTrace) -> bool {
    exists|c: int| 0 <= c < CHANNELS && #[trigger] strikes(f, c)
}

/// The frames of the first `k` entries on which a note starts.
pub open spec fn onset_frames(t: Seq<FrameTrace>, k: nat) -> Seq<u32>
    decreases k,
{
    if k == 0 {
        Seq::empty()
    } else {
        let before = onset_frames(t, (k - 1) as nat);
        if has_onset(t[k - 1]) {
            before.push(t[k - 1].frame)
        } else {
            before
        }
    }
}

/// A table whose frames never go back, and end before the last number.
pub open spec fn in_order(t: Seq<FrameTrace>) -> bool {
    &&& forall|i: int, j: int|
        0 <= i <= j < t.len() ==> (#[trigger] t[i]).frame <= (#[trigger] t[j]).frame
    &&& forall|i: int| 0 <= i < t.len() ==> (#[trigger] t[i]).frame < u32::MAX
    &&& t.len() <= u32::MAX
}

pub fn does_strike(f: &FrameTrace, c: usize) -> (r: bool)
    requires
        c < CHANNELS,
    ensures
        r == strikes(*f, c as int),
{
    f.ch[c].keyed && f.ch[c].level > 0
}

fn starts_note(f: &FrameTrace) -> (r: bool)
    ensures
        r == has_onset(*f),
{
    for c in 0..CHANNELS
        invariant
            forall|d: int| 0 <= d < c ==> !#[trigger] strikes(*f, d),
    {
        if does_strike(f, c) {
            assert(strikes(*f, c as int));
            return true;
        }
    }
    false
}

/// Frames on which some channel starts a note that is heard.
pub fn onsets(t: &[FrameTrace]) -> (r: Vec<u32>)
    ensures
        r@ == onset_frames(t@, t@.len()),
        r@.len() <= t@.len(),
{
    let mut out: Vec<u32> = Vec::new();
    for i in 0..t.len()
        invariant
            out@ == onset_frames(t@, i as nat),
            out@.len() <= i,
    {
        if starts_note(&t[i]) {
            out.push(t[i].frame);
        }
    }
    out
}

/// Every onset is a frame of the table.
pub proof fn lemma_onsets_in_table(t: Seq<FrameTrace>, k: nat, j: int) -> (i: int)
    requires
        k <= t.len(),
        0 <= j < onset_frames(t, k).len(),
    ensures
        0 <= i < k,
        t[i].frame == onset_frames(t, k)[j],
    decreases k,
{
    let before = onset_frames(t, (k - 1) as nat);
    if j < before.len() {
        lemma_onsets_in_table(t, (k - 1) as nat, j)
    } else {
        k - 1
    }
}

/// The onsets of an ordered table are in order too.
pub proof fn lemma_onsets_ordered(t: Seq<FrameTrace>, k: nat)
    requires
        in_order(t),
        k <= t.len(),
    ensures
        forall|i: int, j: int|
            0 <= i <= j < onset_frames(t, k).len() ==> (#[trigger] onset_frames(t, k)[i]) <= (
            #[trigger] onset_frames(t, k)[j]),
        forall|i: int|
            0 <= i < onset_frames(t, k).len() ==> (#[trigger] onset_frames(t, k)[i]) < u32::MAX,
        k > 0 ==> forall|i: int|
            0 <= i < onset_frames(t, k).len() ==> (#[trigger] onset_frames(t, k)[i]) <= t[k
                - 1].frame,
    decreases k,
{
    if k > 0 {
        lemma_onsets_ordered(t, (k - 1) as nat);
        let before = onset_frames(t, (k - 1) as nat);
        if k > 1 {
            assert(t[k - 2].frame <= t[k - 1].frame);
        }
    }
}

} // verus!
