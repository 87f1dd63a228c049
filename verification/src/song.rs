//! The song model: cells, phrases, instruments, chains and the arrangement.

use vstd::prelude::*;


verus! {

pub const STEPS_PER_PHRASE: usize = 16;

/// Two pulses, the triangle, the noise channel and the sample channel.
pub const CHANNELS: usize = 5;

pub const INSTRUMENTS: usize = 16;

/// One step of one channel.
#[derive(Clone, Copy, Debug, PartialEq, Eq)]
pub struct Cell {
    /// MIDI note number; `None` is an empty cell.
    pub note: Option<u8>,
    /// Instrument index.
    pub instr: u8,
    /// Volume 0..=15; 0 is the channel's default.
    pub vol: u8,
    /// Effect column: command letter and parameter.
    pub fx: Option<(u8, u8)>,
    /// The note above rings on through this step.
    pub hold: bool,
}

/// A cell with nothing in it.
pub open spec fn empty_cell() -> Cell {
    Cell { note: None, instr: 0, vol: 0, fx: None, hold: false }
}

/// A cell that holds the note above it.
pub open spec fn hold_cell() -> Cell {
    Cell { note: None, instr: 0, vol: 0, fx: None, hold: true }
}

impl Default for Cell {
    fn default() -> (c: Cell)
        ensures
            c == empty_cell(),
    {
        Cell { note: None, instr: 0, vol: 0, fx: None, hold: false }
    }
}

impl Cell {
    pub fn hold() -> (c: Cell)
        ensures
            c == hold_cell(),
    {
        Cell { note: None, instr: 0, vol: 0, fx: None, hold: true }
    }
}

pub fn same_note(a: Option<u8>, b: Option<u8>) -> (r: bool)
    ensures
        r == (a == b),
{
    match (a, b) {
        (None, None) => true,
        (Some(x), Some(y)) => x == y,
        _ => false,
    }
}

pub fn same_fx(a: Option<(u8, u8)>, b: Option<(u8, u8)>) -> (r: bool)
    ensures
        r == (a == b),
{
    match (a, b) {
        (None, None) => true,
        (Some(x), Some(y)) => x.0 == y.0 && x.1 == y.1,
        _ => false,
    }
}

pub fn same_cell(a: Cell, b: Cell) -> (r: bool)
    ensures
        r == (a == b),
{
    same_note(a.note, b.note) && a.instr == b.instr && a.vol == b.vol && same_fx(a.fx, b.fx)
        && a.hold == b.hold
}

pub fn empty_row() -> (r: [Cell; CHANNELS])
    ensures
        r@ == Seq::new(CHANNELS as nat, |c: int| empty_cell()),
{
    let c: Cell = Cell::default();
    let r: [Cell; CHANNELS] = [c; CHANNELS];
    assert(r@ =~= Seq::new(CHANNELS as nat, |c: int| empty_cell()));
    r
}

pub fn same_row(a: &[Cell; CHANNELS], b: &[Cell; CHANNELS]) -> (r: bool)
    ensures
        r == (a@ == b@),
{
    for c in 0..CHANNELS
        invariant
            forall|k: int| 0 <= k < c ==> a@[k] == b@[k],
    {
        if !same_cell(a[c], b[c]) {
            assert(a@[c as int] != b@[c as int]);
            return false;
        }
    }
    assert(a@ =~= b@);
    true
}

/// Sixteen steps of every channel.
#[derive(Clone, Copy, Debug, PartialEq, Eq)]
pub struct Phrase {
    pub cells: [[Cell; CHANNELS]; STEPS_PER_PHRASE],
}

pub open spec fn empty_grid() -> Seq<Seq<Cell>> {
    Seq::new(
        STEPS_PER_PHRASE as nat,
        |s: int| Seq::new(CHANNELS as nat, |c: int| empty_cell()),
    )
}

/// The grid with one cell replaced.
pub open spec fn put_cell(g: Seq<Seq<Cell>>, s: int, c: int, x: Cell) -> Seq<Seq<Cell>> {
    g.update(s, g[s].update(c, x))
}

impl View for Phrase {
    type V = Seq<Seq<Cell>>;

    open spec fn view(&self) -> Seq<Seq<Cell>> {
        Seq::new(STEPS_PER_PHRASE as nat, |s: int| self.cells@[s]@)
    }
}

impl Default for Phrase {
    fn default() -> (p: Phrase)
        ensures
            p@ == empty_grid(),
    {
        let r: [Cell; CHANNELS] = empty_row();
        let p: Phrase = Phrase { cells: [r; STEPS_PER_PHRASE] };
        assert(p@ =~= empty_grid());
        p
    }
}

impl Phrase {
    /// The cell at a step and channel.
    pub fn at(&self, s: usize, c: usize) -> (x: Cell)
        requires
            s < STEPS_PER_PHRASE,
            c < CHANNELS,
        ensures
            x == self@[s as int][c as int],
    {
        self.cells[s][c]
    }

    /// Replaces one cell and leaves every other as it was.
    pub fn put(&mut self, s: usize, c: usize, x: Cell)
        requires
            s < STEPS_PER_PHRASE,
            c < CHANNELS,
        ensures
            final(self)@ == put_cell(old(self)@, s as int, c as int, x),
    {
        let ghost before = self@;
        self.cells[s][c] = x;
        assert forall|k: int| 0 <= k < STEPS_PER_PHRASE implies self@[k] == put_cell(
            before,
            s as int,
            c as int,
            x,
        )[k] by {
            assert(before[k] == before[k]);
            assert(self@[k] =~= put_cell(before, s as int, c as int, x)[k]);
        }
        assert(self@ =~= put_cell(before, s as int, c as int, x));
    }
}

pub fn same_phrase(a: &Phrase, b: &Phrase) -> (r: bool)
    ensures
        r == (a@ == b@),
{
    for s in 0..STEPS_PER_PHRASE
        invariant
            forall|k: int| 0 <= k < s ==> a@[k] == b@[k],
    {
        if !same_row(&a.cells[s], &b.cells[s]) {
            assert(a@[s as int] != b@[s as int]);
            return false;
        }
        assert(a@[s as int] == b@[s as int]);
    }
    assert(a@ =~= b@);
    true
}

/// Envelope and timbre of one voice. Levels are in thousandths.
#[derive(Clone, Copy, Debug, PartialEq, Eq, Structural)]
pub struct Instrument {
    /// Attack time in ms (0 = instant).
    pub attack_ms: u16,
    /// Decay time in ms, from the peak down to the sustain level.
    pub decay_ms: u16,
    /// Sustain level, thousandths of full scale.
    pub sustain: i32,
    /// Release time in ms, from the sustain level down to silence.
    pub release_ms: u16,
    /// Pulse duty cycle, thousandths.
    pub duty: i32,
    /// Instrument volume, thousandths of full scale.
    pub volume: i32,
}

pub open spec fn default_instrument() -> Instrument {
    Instrument {
        attack_ms: 2,
        decay_ms: 60,
        sustain: 700,
        release_ms: 120,
        duty: 500,
        volume: 1000,
    }
}

impl Default for Instrument {
    fn default() -> (i: Instrument)
        ensures
            i == default_instrument(),
    {
        Instrument {
            attack_ms: 2,
            decay_ms: 60,
            sustain: 700,
            release_ms: 120,
            duty: 500,
            volume: 1000,
        }
    }
}

/// A named run of phrases.
#[derive(Clone, Debug, PartialEq, Eq)]
pub struct Chain {
    pub phrases: Vec<u8>,
    pub name: Option<String>,
}

#[verifier::ext_equal]
pub struct ChainView {
    pub phrases: Seq<u8>,
    pub name: Option<Seq<char>>,
}

/// The characters of an optional string.
pub open spec fn opt_text(s: Option<String>) -> Option<Seq<char>> {
    match s {
        Some(x) => Some(x@),
        None => None,
    }
}

impl View for Chain {
    type V = ChainView;

    open spec fn view(&self) -> ChainView {
        ChainView { phrases: self.phrases@, name: opt_text(self.name) }
    }
}

pub open spec fn empty_chain() -> ChainView {
    ChainView { phrases: Seq::empty(), name: None }
}

impl Default for Chain {
    fn default() -> (c: Chain)
        ensures
            c@ == empty_chain(),
    {
        let c: Chain = Chain { phrases: Vec::new(), name: None };
        assert(c@ =~= empty_chain());
        c
    }
}

/// A slot of the sample bank.
#[derive(Clone, Debug, PartialEq, Eq)]
pub struct DpcmRef {
    pub name: String,
    pub path: String,
    /// Playback rate index 0..=15.
    pub rate: u8,
}

#[verifier::ext_equal]
pub struct DpcmView {
    pub name: Seq<char>,
    pub path: Seq<char>,
    pub rate: u8,
}

impl View for DpcmRef {
    type V = DpcmView;

    open spec fn view(&self) -> DpcmView {
        DpcmView { name: self.name@, path: self.path@, rate: self.rate }
    }
}

/// A slot nothing has been put in.
pub open spec fn blank_sample() -> DpcmView {
    DpcmView { name: Seq::empty(), path: Seq::empty(), rate: 15 }
}

impl DpcmRef {
    pub fn blank() -> (r: DpcmRef)
        ensures
            r@ == blank_sample(),
    {
        DpcmRef { name: String::new(), path: String::new(), rate: 15 }
    }
}

pub fn copy_sample(r: &DpcmRef) -> (c: DpcmRef)
    ensures
        c@ == r@,
{
    DpcmRef { name: r.name.clone(), path: r.path.clone(), rate: r.rate }
}

#[derive(Clone, Debug)]
pub struct Song {
    pub bpm: u16,
    /// How far the cursor advances after a note is inserted.
    pub edit_step: usize,
    pub phrases: Vec<Phrase>,
    pub current_phrase: usize,
    pub instruments: [Instrument; INSTRUMENTS],
    /// Phrases in playing order; empty plays the current phrase.
    pub order: Vec<usize>,
    /// Where in the order playback loops back to.
    pub loop_pos: usize,
    pub title: String,
    pub artist: String,
    pub copyright: String,
    pub key_name: String,
    /// Paths of the driver binary and its symbol file.
    pub driver: Option<(String, String)>,
    pub expansion: bool,
    pub samples: Vec<DpcmRef>,
    pub chains: Vec<Chain>,
    /// Chains in playing order; where it is not empty it decides playback.
    pub arrangement: Vec<u8>,
    pub arr_loop: usize,
    /// Samples by which each step is late (or early, when negative).
    pub groove: [i16; 16],
    /// Steps after which each channel starts its phrase again.
    pub channel_length: [u8; CHANNELS],
}

#[verifier::ext_equal]
pub struct SongView {
    pub bpm: u16,
    pub edit_step: usize,
    pub phrases: Seq<Seq<Seq<Cell>>>,
    pub current_phrase: usize,
    pub instruments: Seq<Instrument>,
    pub order: Seq<usize>,
    pub loop_pos: usize,
    pub title: Seq<char>,
    pub artist: Seq<char>,
    pub copyright: Seq<char>,
    pub key_name: Seq<char>,
    pub driver: Option<(Seq<char>, Seq<char>)>,
    pub expansion: bool,
    pub samples: Seq<DpcmView>,
    pub chains: Seq<ChainView>,
    pub arrangement: Seq<u8>,
    pub arr_loop: usize,
    pub groove: Seq<i16>,
    pub channel_length: Seq<u8>,
}

pub open spec fn grids(v: Seq<Phrase>) -> Seq<Seq<Seq<Cell>>> {
    v.map_values(|p: Phrase| p@)
}

pub open spec fn chain_views(v: Seq<Chain>) -> Seq<ChainView> {
    v.map_values(|c: Chain| c@)
}

pub open spec fn sample_views(v: Seq<DpcmRef>) -> Seq<DpcmView> {
    v.map_values(|r: DpcmRef| r@)
}

pub open spec fn driver_view(d: Option<(String, String)>) -> Option<(Seq<char>, Seq<char>)> {
    match d {
        Some((a, b)) => Some((a@, b@)),
        None => None,
    }
}

impl View for Song {
    type V = SongView;

    open spec fn view(&self) -> SongView {
        SongView {
            bpm: self.bpm,
            edit_step: self.edit_step,
            phrases: grids(self.phrases@),
            current_phrase: self.current_phrase,
            instruments: self.instruments@,
            order: self.order@,
            loop_pos: self.loop_pos,
            title: self.title@,
            artist: self.artist@,
            copyright: self.copyright@,
            key_name: self.key_name@,
            driver: driver_view(self.driver),
            expansion: self.expansion,
            samples: sample_views(self.samples@),
            chains: chain_views(self.chains@),
            arrangement: self.arrangement@,
            arr_loop: self.arr_loop,
            groove: self.groove@,
            channel_length: self.channel_length@,
        }
    }
}

/// A song at 140 BPM with one empty phrase and the default instruments.
pub open spec fn default_song() -> SongView {
    SongView {
        bpm: 140,
        edit_step: 1,
        phrases: seq![empty_grid()],
        current_phrase: 0,
        instruments: Seq::new(INSTRUMENTS as nat, |i: int| default_instrument()),
        order: Seq::empty(),
        loop_pos: 0,
        title: Seq::empty(),
        artist: Seq::empty(),
        copyright: Seq::empty(),
        key_name: Seq::empty(),
        driver: None,
        expansion: false,
        samples: Seq::empty(),
        chains: Seq::empty(),
        arrangement: Seq::empty(),
        arr_loop: 0,
        groove: Seq::new(16, |i: int| 0i16),
        channel_length: Seq::new(CHANNELS as nat, |i: int| 16u8),
    }
}

impl Default for Song {
    fn default() -> (s: Song)
        ensures
            s@ == default_song(),
    {
        let mut phrases: Vec<Phrase> = Vec::new();
        phrases.push(Phrase::default());
        let inst: Instrument = Instrument::default();
        let s: Song = Song {
            bpm: 140,
            edit_step: 1,
            phrases,
            current_phrase: 0,
            instruments: [inst; INSTRUMENTS],
            order: Vec::new(),
            loop_pos: 0,
            title: String::new(),
            artist: String::new(),
            copyright: String::new(),
            key_name: String::new(),
            driver: None,
            expansion: false,
            samples: Vec::new(),
            chains: Vec::new(),
            arrangement: Vec::new(),
            arr_loop: 0,
            groove: [0i16; 16],
            channel_length: [16u8; CHANNELS],
        };
        assert(s@.phrases =~= seq![empty_grid()]);
        assert(s@ =~= default_song());
        s
    }
}

fn copy_bytes(v: &Vec<u8>) -> (r: Vec<u8>)
    ensures
        r@ == v@,
{
    let mut out: Vec<u8> = Vec::new();
    for i in 0..v.len()
        invariant
            out@ == v@.take(i as int),
    {
        out.push(v[i]);
    }
    assert(out@ =~= v@);
    out
}

fn copy_chain(c: &Chain) -> (r: Chain)
    ensures
        r@ == c@,
{
    let name: Option<String> = match &c.name {
        Some(n) => Some(n.clone()),
        None => None,
    };
    Chain { phrases: copy_bytes(&c.phrases), name }
}

/// A song like another.
pub fn copy_song(s: &Song) -> (r: Song)
    ensures
        r@ == s@,
{
    let mut phrases: Vec<Phrase> = Vec::new();
    for i in 0..s.phrases.len()
        invariant
            phrases@ == s.phrases@.take(i as int),
    {
        phrases.push(s.phrases[i]);
    }
    assert(phrases@ =~= s.phrases@);
    let mut order: Vec<usize> = Vec::new();
    for i in 0..s.order.len()
        invariant
            order@ == s.order@.take(i as int),
    {
        order.push(s.order[i]);
    }
    assert(order@ =~= s.order@);
    let mut samples: Vec<DpcmRef> = Vec::new();
    for i in 0..s.samples.len()
        invariant
            samples@.len() == i,
            forall|j: int| 0 <= j < i ==> (#[trigger] samples@[j])@ == s.samples@[j]@,
    {
        samples.push(copy_sample(&s.samples[i]));
    }
    let mut chains: Vec<Chain> = Vec::new();
    for i in 0..s.chains.len()
        invariant
            chains@.len() == i,
            forall|j: int| 0 <= j < i ==> (#[trigger] chains@[j])@ == s.chains@[j]@,
    {
        chains.push(copy_chain(&s.chains[i]));
    }
    let driver: Option<(String, String)> = match &s.driver {
        Some((a, b)) => Some((a.clone(), b.clone())),
        None => None,
    };
    let r: Song = Song {
        bpm: s.bpm,
        edit_step: s.edit_step,
        phrases,
        current_phrase: s.current_phrase,
        instruments: s.instruments,
        order,
        loop_pos: s.loop_pos,
        title: s.title.clone(),
        artist: s.artist.clone(),
        copyright: s.copyright.clone(),
        key_name: s.key_name.clone(),
        driver,
        expansion: s.expansion,
        samples,
        chains,
        arrangement: copy_bytes(&s.arrangement),
        arr_loop: s.arr_loop,
        groove: s.groove,
        channel_length: s.channel_length,
    };
    assert(r@.samples =~= s@.samples);
    assert(r@.chains =~= s@.chains);
    assert(r@ =~= s@);
    r
}

// ---------------------------------------------------------------- the demo

/// The notes of the demo's lead, arpeggio, bass and drums on a step.
pub open spec fn demo_note(s: int, c: int) -> Option<u8> {
    if c == 0 {
        if s == 0 || s == 12 {
            Some(81)
        } else if s == 2 || s == 7 || s == 15 {
            Some(72)
        } else if s == 3 || s == 14 {
            Some(76)
        } else if s == 4 {
            Some(77)
        } else if s == 6 {
            Some(69)
        } else if s == 8 {
            Some(67)
        } else if s == 10 {
            Some(71)
        } else if s == 11 {
            Some(74)
        } else if s == 13 {
            Some(79)
        } else {
            None
        }
    } else if c == 1 {
        if s == 0 || s == 12 {
            Some(57)
        } else if s == 1 || s == 13 || s == 15 {
            Some(64)
        } else if s == 2 || s == 7 || s == 14 {
            Some(69)
        } else if s == 3 {
            Some(72)
        } else if s == 4 {
            Some(53)
        } else if s == 5 {
            Some(60)
        } else if s == 6 {
            Some(65)
        } else if s == 8 {
            Some(55)
        } else if s == 9 {
            Some(62)
        } else if s == 10 {
            Some(67)
        } else {
            Some(71)
        }
    } else if c == 2 {
        if s == 0 || s == 2 || s == 12 || s == 14 {
            Some(45)
        } else if s == 4 || s == 6 {
            Some(41)
        } else if s == 8 || s == 10 {
            Some(43)
        } else {
            None
        }
    } else if c == 3 {
        if s % 4 == 0 {
            Some(36)
        } else if s % 4 == 2 {
            Some(50)
        } else {
            Some(60)
        }
    } else {
        None
    }
}

/// The demo's phrase: each channel on the instrument of its number, at full
/// volume.
pub open spec fn demo_grid() -> Seq<Seq<Cell>> {
    Seq::new(
        STEPS_PER_PHRASE as nat,
        |s: int|
            Seq::new(
                CHANNELS as nat,
                |c: int|
                    match demo_note(s, c) {
                        Some(n) => Cell {
                            note: Some(n),
                            instr: c as u8,
                            vol: 15,
                            fx: None,
                            hold: false,
                        },
                        None => empty_cell(),
                    },
            ),
    )
}

pub open spec fn demo_instrument(i: int) -> Instrument {
    if i == 0 {
        Instrument {
            attack_ms: 2,
            decay_ms: 80,
            sustain: 600,
            release_ms: 150,
            duty: 500,
            volume: 700,
        }
    } else if i == 1 {
        Instrument {
            attack_ms: 2,
            decay_ms: 60,
            sustain: 300,
            release_ms: 80,
            duty: 250,
            volume: 500,
        }
    } else if i == 2 {
        Instrument {
            attack_ms: 2,
            decay_ms: 40,
            sustain: 900,
            release_ms: 200,
            duty: 500,
            volume: 900,
        }
    } else if i == 3 {
        Instrument {
            attack_ms: 0,
            decay_ms: 60,
            sustain: 0,
            release_ms: 20,
            duty: 500,
            volume: 700,
        }
    } else {
        default_instrument()
    }
}

/// A loop over four chords at 80 BPM.
pub open spec fn demo_song() -> SongView {
    SongView {
        bpm: 80,
        phrases: seq![demo_grid()],
        instruments: Seq::new(INSTRUMENTS as nat, |i: int| demo_instrument(i)),
        ..default_song()
    }
}

fn find_demo_note(s: usize, c: usize) -> (r: Option<u8>)
    ensures
        r == demo_note(s as int, c as int),
{
    if c == 0 {
        if s == 0 || s == 12 {
            Some(81)
        } else if s == 2 || s == 7 || s == 15 {
            Some(72)
        } else if s == 3 || s == 14 {
            Some(76)
        } else if s == 4 {
            Some(77)
        } else if s == 6 {
            Some(69)
        } else if s == 8 {
            Some(67)
        } else if s == 10 {
            Some(71)
        } else if s == 11 {
            Some(74)
        } else if s == 13 {
            Some(79)
        } else {
            None
        }
    } else if c == 1 {
        if s == 0 || s == 12 {
            Some(57)
        } else if s == 1 || s == 13 || s == 15 {
            Some(64)
        } else if s == 2 || s == 7 || s == 14 {
            Some(69)
        } else if s == 3 {
            Some(72)
        } else if s == 4 {
            Some(53)
        } else if s == 5 {
            Some(60)
        } else if s == 6 {
            Some(65)
        } else if s == 8 {
            Some(55)
        } else if s == 9 {
            Some(62)
        } else if s == 10 {
            Some(67)
        } else {
            Some(71)
        }
    } else if c == 2 {
        if s == 0 || s == 2 || s == 12 || s == 14 {
            Some(45)
        } else if s == 4 || s == 6 {
            Some(41)
        } else if s == 8 || s == 10 {
            Some(43)
        } else {
            None
        }
    } else if c == 3 {
        if s % 4 == 0 {
            Some(36)
        } else if s % 4 == 2 {
            Some(50)
        } else {
            Some(60)
        }
    } else {
        None
    }
}

impl Song {
    /// The song that the program starts with.
    pub fn demo() -> (r: Song)
        ensures
            r@ == demo_song(),
    {
        let mut ph: Phrase = Phrase::default();
        for s in 0..STEPS_PER_PHRASE
            invariant
                forall|k: int, c: int|
                    0 <= k < s && 0 <= c < CHANNELS ==> #[trigger] ph@[k][c] == demo_grid()[k][c],
                forall|k: int, c: int|
                    s <= k < STEPS_PER_PHRASE && 0 <= c < CHANNELS ==> #[trigger] ph@[k][c]
                        == empty_cell(),
                ph@.len() == STEPS_PER_PHRASE,
                forall|k: int|
                    0 <= k < STEPS_PER_PHRASE ==> (#[trigger] ph@[k]).len() == CHANNELS,
        {
            for c in 0..CHANNELS
                invariant
                    s < STEPS_PER_PHRASE,
                    ph@.len() == STEPS_PER_PHRASE,
                    forall|k: int|
                        0 <= k < STEPS_PER_PHRASE ==> (#[trigger] ph@[k]).len() == CHANNELS,
                    forall|k: int, d: int|
                        0 <= k < STEPS_PER_PHRASE && 0 <= d < CHANNELS ==> #[trigger] ph@[k][d]
                            == (if k < s || (k == s && d < c) {
                            demo_grid()[k][d]
                        } else {
                            empty_cell()
                        }),
            {
                if let Some(n) = find_demo_note(s, c) {
                    ph.put(
                        s,
                        c,
                        Cell { note: Some(n), instr: c as u8, vol: 15, fx: None, hold: false },
                    );
                }
            }
        }
        assert forall|k: int| 0 <= k < STEPS_PER_PHRASE implies #[trigger] ph@[k]
            == demo_grid()[k] by {
            assert(ph@[k] =~= demo_grid()[k]);
        }
        assert(ph@ =~= demo_grid());
        let mut song: Song = Song::default();
        let ghost base = song@;
        assert(base.phrases.len() == song.phrases@.len());
        song.bpm = 80;
        song.phrases.set(0, ph);
        song.instruments[0] = Instrument {
            attack_ms: 2,
            decay_ms: 80,
            sustain: 600,
            release_ms: 150,
            duty: 500,
            volume: 700,
        };
        song.instruments[1] = Instrument {
            attack_ms: 2,
            decay_ms: 60,
            sustain: 300,
            release_ms: 80,
            duty: 250,
            volume: 500,
        };
        song.instruments[2] = Instrument {
            attack_ms: 2,
            decay_ms: 40,
            sustain: 900,
            release_ms: 200,
            duty: 500,
            volume: 900,
        };
        song.instruments[3] = Instrument {
            attack_ms: 0,
            decay_ms: 60,
            sustain: 0,
            release_ms: 20,
            duty: 500,
            volume: 700,
        };
        assert(song.instruments@ =~= demo_song().instruments);
        assert(song@.phrases =~= seq![demo_grid()]);
        assert(song@ =~= demo_song());
        song
    }
}

// ---------------------------------------------------------------- playing order

/// The phrases of one arrangement slot.
pub open spec fn slot_phrases(song: SongView, slot: int) -> Seq<u8> {
    let c = song.arrangement[slot] as int;
    if c < song.chains.len() {
        song.chains[c].phrases
    } else {
        Seq::empty()
    }
}

/// The phrases played by the first `k` arrangement slots, in order, each with
/// the slot it comes from and its place in that slot's chain.
pub open spec fn played(song: SongView, k: nat) -> Seq<(usize, (usize, usize))>
    decreases k,
{
    if k == 0 {
        Seq::empty()
    } else {
        let chain = slot_phrases(song, k - 1);
        played(song, (k - 1) as nat) + Seq::new(
            chain.len(),
            |i: int| (chain[i] as usize, ((k - 1) as usize, i as usize)),
        )
    }
}

/// What the song plays and where it loops back to.
pub open spec fn playback(song: SongView) -> (Seq<usize>, usize) {
    if song.arrangement.len() == 0 {
        (song.order, song.loop_pos)
    } else {
        (
            played(song, song.arrangement.len()).map_values(|e: (usize, (usize, usize))| e.0),
            if song.arr_loop < song.arrangement.len() {
                played(song, song.arr_loop as nat).len() as usize
            } else {
                0
            },
        )
    }
}

impl Song {
    /// Whether any step is played off the straight grid.
    pub fn has_groove(&self) -> (r: bool)
        ensures
            r == (exists|i: int| 0 <= i < 16 && self@.groove[i] != 0),
    {
        for i in 0..16usize
            invariant
                forall|k: int| 0 <= k < i ==> self@.groove[k] == 0,
        {
            if self.groove[i] != 0 {
                assert(self@.groove[i as int] != 0);
                return true;
            }
        }
        false
    }

    /// The phrases of one arrangement slot.
    fn chain_of(&self, slot: usize) -> (r: &[u8])
        requires
            slot < self.arrangement@.len(),
        ensures
            r@ == slot_phrases(self@, slot as int),
    {
        let c: usize = self.arrangement[slot] as usize;
        if c < self.chains.len() {
            assert(self@.chains[c as int] == self.chains@[c as int]@);
            self.chains[c].phrases.as_slice()
        } else {
            let none: &[u8] = &[];
            assert(none@ =~= Seq::<u8>::empty());
            none
        }
    }

    /// The playing order, flattened out of the arrangement where there is
    /// one, and the index that playback loops back to.
    pub fn flat_order(&self) -> (r: (Vec<usize>, usize))
        ensures
            (r.0@, r.1) == playback(self@),
    {
        if self.arrangement.len() == 0 {
            return (self.order.clone(), self.loop_pos);
        }
        let mut out: Vec<usize> = Vec::new();
        let mut back: usize = 0;
        let mut k: usize = 0;
        while k < self.arrangement.len()
            invariant
                k <= self.arrangement@.len(),
                out@ == played(self@, k as nat).map_values(|e: (usize, (usize, usize))| e.0),
                k <= self.arr_loop ==> back == 0,
                k > self.arr_loop ==> back == played(self@, self.arr_loop as nat).len(),
            decreases self.arrangement@.len() - k,
        {
            if k == self.arr_loop {
                back = out.len();
            }
            let chain: &[u8] = self.chain_of(k);
            let ghost start = out@;
            for i in 0..chain.len()
                invariant
                    out@ == start + chain@.take(i as int).map_values(|p: u8| p as usize),
            {
                out.push(chain[i] as usize);
                assert(chain@.take(i + 1) =~= chain@.take(i as int).push(chain@[i as int]));
                assert(out@ =~= start + chain@.take(i + 1).map_values(|p: u8| p as usize));
            }
            assert(chain@.take(chain@.len() as int) =~= chain@);
            k += 1;
            assert(out@ =~= played(self@, k as nat).map_values(
                |e: (usize, (usize, usize))| e.0,
            ));
        }
        (out, back)
    }

    /// For each entry of the flattened order, the arrangement slot it comes
    /// from and its place in that slot's chain.
    pub fn arrangement_map(&self) -> (r: Vec<(usize, usize)>)
        ensures
            r@ == played(self@, self@.arrangement.len()).map_values(
                |e: (usize, (usize, usize))| e.1,
            ),
    {
        let mut out: Vec<(usize, usize)> = Vec::new();
        let mut k: usize = 0;
        while k < self.arrangement.len()
            invariant
                k <= self.arrangement@.len(),
                out@ == played(self@, k as nat).map_values(|e: (usize, (usize, usize))| e.1),
            decreases self.arrangement@.len() - k,
        {
            let chain: &[u8] = self.chain_of(k);
            let ghost start = out@;
            for i in 0..chain.len()
                invariant
                    out@ == start + Seq::new(i as nat, |j: int| (k, j as usize)),
            {
                out.push((k, i));
                assert(out@ =~= start + Seq::new((i + 1) as nat, |j: int| (k, j as usize)));
            }
            k += 1;
            assert(out@ =~= played(self@, k as nat).map_values(
                |e: (usize, (usize, usize))| e.1,
            ));
        }
        out
    }
}

/// The flattened order and the arrangement map describe the same entries:
/// each entry of the order is the phrase that its chain holds at the place
/// the map names.
pub proof fn law_map_locates_order(song: SongView, k: nat, i: int)
    requires
        k <= song.arrangement.len() <= usize::MAX,
        forall|c: int| 0 <= c < song.chains.len() ==> #[trigger] song.chains[c].phrases.len() <= usize::MAX,
        0 <= i < played(song, k).len(),
    ensures
        ({
            let (phrase, (slot, place)) = played(song, k)[i];
            &&& slot < k
            &&& place < slot_phrases(song, slot as int).len()
            &&& phrase == slot_phrases(song, slot as int)[place as int] as usize
        }),
    decreases k,
{
    let before = played(song, (k - 1) as nat);
    if i < before.len() {
        law_map_locates_order(song, (k - 1) as nat, i);
    }
}

// ---------------------------------------------------------------- phrases from rows

/// The rows of phrase `p`, padded with empty rows past the end.
pub open spec fn rows_phrase(rows: Seq<Seq<Cell>>, p: int) -> Seq<Seq<Cell>> {
    Seq::new(
        STEPS_PER_PHRASE as nat,
        |s: int|
            if p * 16 + s < rows.len() {
                rows[p * 16 + s]
            } else {
                Seq::new(CHANNELS as nat, |c: int| empty_cell())
            },
    )
}

/// Where a phrase first occurs among those kept, or their number.
pub open spec fn grid_index(kept: Seq<Seq<Seq<Cell>>>, g: Seq<Seq<Cell>>) -> nat
    decreases kept.len(),
{
    if kept.len() == 0 || kept[0] == g {
        0
    } else {
        1 + grid_index(kept.skip(1), g)
    }
}

/// Adds one phrase to a song's phrases and order: a phrase equal to one that
/// is there already is shared.
pub open spec fn share_phrase(
    st: (Seq<Seq<Seq<Cell>>>, Seq<usize>),
    g: Seq<Seq<Cell>>,
) -> (Seq<Seq<Seq<Cell>>>, Seq<usize>) {
    let k = grid_index(st.0, g);
    (
        if k < st.0.len() {
            st.0
        } else {
            st.0.push(g)
        },
        st.1.push(k as usize),
    )
}

/// The first `n` phrases of a run of rows, shared.
pub open spec fn shared_rows(rows: Seq<Seq<Cell>>, n: nat) -> (Seq<Seq<Seq<Cell>>>, Seq<usize>)
    decreases n,
{
    if n == 0 {
        (Seq::empty(), Seq::empty())
    } else {
        share_phrase(shared_rows(rows, (n - 1) as nat), rows_phrase(rows, n - 1))
    }
}

pub open spec fn row_views(rows: Seq<[Cell; CHANNELS]>) -> Seq<Seq<Cell>> {
    rows.map_values(|r: [Cell; CHANNELS]| r@)
}

pub proof fn lemma_grid_index(kept: Seq<Seq<Seq<Cell>>>, g: Seq<Seq<Cell>>, k: int)
    requires
        0 <= k <= kept.len(),
        forall|i: int| 0 <= i < k ==> #[trigger] kept[i] != g,
        k < kept.len() ==> kept[k] == g,
    ensures
        grid_index(kept, g) == k,
    decreases kept.len(),
{
    if kept.len() > 0 && kept[0] != g {
        assert forall|i: int| 0 <= i < k - 1 implies #[trigger] kept.skip(1)[i] != g by {
            assert(kept.skip(1)[i] == kept[i + 1]);
        }
        lemma_grid_index(kept.skip(1), g, k - 1);
    } else if k > 0 {
        assert(kept[0] != g);
    }
}

/// Finds a phrase among those kept, or their number.
pub fn find_phrase(kept: &Vec<Phrase>, g: &Phrase) -> (r: usize)
    ensures
        r == grid_index(grids(kept@), g@),
        r <= kept@.len(),
{
    let mut k: usize = 0;
    while k < kept.len() && !same_phrase(&kept[k], g)
        invariant
            k <= kept@.len(),
            forall|i: int| 0 <= i < k ==> #[trigger] grids(kept@)[i] != g@,
        decreases kept@.len() - k,
    {
        k += 1;
    }
    proof {
        if k < kept@.len() {
            assert(grids(kept@)[k as int] == kept@[k as int]@);
        }
        lemma_grid_index(grids(kept@), g@, k as int);
    }
    k
}

/// Adds a phrase, sharing an equal one, and appends it to the order.
pub fn add_shared(kept: &mut Vec<Phrase>, order: &mut Vec<usize>, g: Phrase)
    ensures
        (grids(final(kept)@), final(order)@) == share_phrase((grids(old(kept)@), old(order)@), g@),
        final(order)@.len() == old(order)@.len() + 1,
        forall|i: int|
            0 <= i < old(order)@.len() ==> final(order)@[i] == old(order)@[i],
        final(order)@.last() < final(kept)@.len(),
        old(kept)@.len() <= final(kept)@.len() <= old(kept)@.len() + 1,
{
    let k: usize = find_phrase(kept, &g);
    let ghost before = kept@;
    if k == kept.len() {
        kept.push(g);
        assert(grids(kept@) =~= grids(before).push(g@));
    }
    order.push(k);
}

/// More distinct phrases than the format can number.
#[derive(Clone, Copy, Debug, PartialEq, Eq, Structural)]
pub struct TooManyPhrases {
    pub unique: usize,
}

/// How many phrases a run of rows takes.
pub open spec fn phrase_count(rows: nat) -> nat {
    (rows + 15) / 16
}

/// Cuts rows into phrases and an order that shares equal phrases. The format
/// numbers phrases with one byte, so more than 256 distinct ones are refused.
pub fn phrases_from_rows(rows: &Vec<[Cell; CHANNELS]>) -> (r: Result<
    (Vec<Phrase>, Vec<usize>),
    TooManyPhrases,
>)
    ensures
        ({
            let (phrases, order) = shared_rows(row_views(rows@), phrase_count(rows@.len()));
            match r {
                Ok((p, o)) => grids(p@) == phrases && o@ == order && phrases.len() <= 256,
                Err(e) => e.unique == phrases.len() && phrases.len() > 256,
            }
        }),
        r is Ok ==> forall|i: int|
            0 <= i < r->Ok_0.1@.len() ==> #[trigger] r->Ok_0.1@[i] < r->Ok_0.0@.len(),
{
    let ghost model = row_views(rows@);
    let n: usize = rows.len() / 16 + if rows.len() % 16 == 0 { 0 } else { 1 };
    let mut phrases: Vec<Phrase> = Vec::new();
    let mut order: Vec<usize> = Vec::new();
    assert(grids(phrases@) =~= Seq::<Seq<Seq<Cell>>>::empty());
    let mut p: usize = 0;
    while p < n
        invariant
            p <= n,
            n == phrase_count(rows@.len()),
            model == row_views(rows@),
            (grids(phrases@), order@) == shared_rows(model, p as nat),
            forall|i: int| 0 <= i < order@.len() ==> #[trigger] order@[i] < phrases@.len(),
        decreases n - p,
    {
        let mut ph: Phrase = Phrase::default();
        let mut s: usize = 0;
        while s < STEPS_PER_PHRASE && s < rows.len() - p * 16
            invariant
                s <= STEPS_PER_PHRASE,
                p * 16 + s <= rows@.len(),
                forall|k: int|
                    0 <= k < STEPS_PER_PHRASE ==> #[trigger] ph@[k] == (if k < s {
                        rows@[p * 16 + k]@
                    } else {
                        empty_grid()[k]
                    }),
            decreases STEPS_PER_PHRASE - s,
        {
            let ghost before = ph@;
            ph.cells[s] = rows[p * 16 + s];
            assert forall|k: int| 0 <= k < STEPS_PER_PHRASE implies #[trigger] ph@[k] == (if k < s
                + 1 {
                rows@[p * 16 + k]@
            } else {
                empty_grid()[k]
            }) by {
                assert(before[k] == before[k]);
            }
            s += 1;
        }
        assert(ph@ =~= rows_phrase(model, p as int));
        add_shared(&mut phrases, &mut order, ph);
        p += 1;
    }
    if phrases.len() > 256 {
        return Err(TooManyPhrases { unique: phrases.len() });
    }
    Ok((phrases, order))
}

/// Sharing loses nothing: played back in order, the phrases are the rows they
/// were cut from.
pub proof fn law_sharing_keeps_rows(rows: Seq<Seq<Cell>>, n: nat, i: int)
    requires
        0 <= i < n,
        n <= usize::MAX,
    ensures
        ({
            let (phrases, order) = shared_rows(rows, n);
            &&& order.len() == n
            &&& phrases.len() <= n
            &&& order[i] < phrases.len()
            &&& phrases[order[i] as int] == rows_phrase(rows, i)
        }),
    decreases n,
{
    let before = shared_rows(rows, (n - 1) as nat);
    let g = rows_phrase(rows, n - 1);
    lemma_grid_index_found(before.0, g);
    if n - 1 > 0 {
        law_sharing_keeps_rows(rows, (n - 1) as nat, 0);
    }
    if i < n - 1 {
        law_sharing_keeps_rows(rows, (n - 1) as nat, i);
    }
}

pub proof fn lemma_grid_index_found(kept: Seq<Seq<Seq<Cell>>>, g: Seq<Seq<Cell>>)
    ensures
        grid_index(kept, g) <= kept.len(),
        grid_index(kept, g) < kept.len() ==> kept[grid_index(kept, g) as int] == g,
    decreases kept.len(),
{
    if kept.len() > 0 && kept[0] != g {
        lemma_grid_index_found(kept.skip(1), g);
    }
}

} // verus!
