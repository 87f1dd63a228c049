//! What the status line says.

use vstd::prelude::*;

use crate::text;
use crate::vip;
use crate::vip::writer;

verus! {

/// What happened last. Some messages quote a word that is kept beside them.
#[derive(Clone, Copy, Debug, PartialEq, Eq, Structural)]
pub enum Status {
    Blank,
    Demo,
    NoAudio,
    Oldest,
    Undone { left: usize },
    Newest,
    Redone { left: usize },
    CellDeleted { s: usize, c: u8 },
    DeletedRow,
    DeletedRows { n: usize },
    DeletedBar,
    DeletedBars { n: usize },
    DeletedPhrase,
    DeletedChannel,
    DeletedBlock { h: usize, w: usize },
    YankedRow,
    YankedRows { n: usize },
    YankedBar,
    YankedBars { n: usize },
    YankedPhrase,
    YankedChannel,
    YankedBlock { h: usize, w: usize },
    Insert,
    InsertChange,
    InsertAppend,
    Visual,
    VisualLine,
    RegisterEmpty,
    Pasted { n: usize },
    NothingToRepeat,
    Cancelled,
    UnknownObject,
    Replaced { s: usize, c: u8, note: u8 },
    NotPiano { key: char },
    ExpectPiano,
    ReplacePrompt,
    Playing,
    PlayingNow,
    Stopped,
    Help,
    InstrumentShown { i: u8 },
    Live { ch: usize, instr: u8, octave: u8 },
    LivePlaying { ch: usize, instr: u8, octave: u8 },
    LiveStopped { ch: usize, instr: u8, octave: u8 },
    LiveChannel { ch: usize, instr: u8, octave: u8 },
    LiveOctave { octave: u8 },
    LiveNote { ch: usize, note: u8, instr: u8 },
    Recorded { ch: usize, note: u8, step: usize, instr: u8 },
    LiveOff { ch: usize },
    RecNone { ch: usize },
    RecOn { ch: usize },
    RecOff { ch: usize },
    RecDisarmed,
    RecAllOff,
    Octave { octave: u8 },
    OnlyOnePhrase,
    PhraseShown { i: usize },
    PhraseOf { i: usize, last: usize },
    NoPhrase { i: usize, have: usize },
    BadPhrase,
    NewPhrase { i: usize },
    PhraseCleared,
    PhraseDeleted { i: usize, now: usize },
    NoFileLoaded,
    NoFileName,
    Wrote,
    Failed,
    NewFile,
    Loaded,
    NewSong,
    NoNoteForVol,
    VolRange { v: u8 },
    BadVol,
    VolSet { v: u8, s: usize, c: u8 },
    NoNoteForFx,
    FxForm,
    FxLetter { key: char },
    FxParam,
    FxSet { cmd: u8, param: u8, s: usize, c: u8 },
    NoFx,
    FxCleared { s: usize, c: u8 },
    BadTranspose,
    TransposeZero,
    TransposeNone,
    TransposedUp { n: usize, by: i32 },
    TransposedDown { n: usize, by: i32 },
    GenDone,
    GenFailed,
    SetUsage,
    BpmSet { n: u16 },
    BpmRange { n: u16 },
    BadBpm,
    StepSet { n: usize },
    StepRange { n: usize },
    BadStep,
    OctaveSet { n: u8 },
    OctaveRange { n: u8 },
    BadOctave,
    ThemeSet,
    UnknownTheme,
    UnknownSetting,
    UnknownCommand,
    NoDirectory,
    NoMatches,
    Matches { n: usize },
}

/// A channel's name.
pub open spec fn channel_label(ch: int) -> Seq<char> {
    if ch == 0 {
        "PU1"@
    } else if ch == 1 {
        "PU2"@
    } else if ch == 2 {
        "TRI"@
    } else if ch == 3 {
        "NOI"@
    } else {
        "DPCM"@
    }
}

pub fn channel_name(ch: usize) -> (r: &'static str)
    ensures
        r@ == channel_label(ch as int),
{
    if ch == 0 {
        "PU1"
    } else if ch == 1 {
        "PU2"
    } else if ch == 2 {
        "TRI"
    } else if ch == 3 {
        "NOI"
    } else {
        "DPCM"
    }
}

fn put_label(t: &mut Vec<char>, ch: usize)
    ensures
        final(t)@ == old(t)@ + channel_label(ch as int),
{
    text::put_str(t, channel_name(ch));
}

fn put_debug_char(t: &mut Vec<char>, c: char)
    ensures
        final(t)@ == old(t)@ + text::debug_char_text(c),
{
    let d: String = text::debug_char(c);
    text::put_str(t, d.as_str());
}

fn put_debug(t: &mut Vec<char>, word: &[char])
    ensures
        final(t)@ == old(t)@ + text::debug_text(word@),
{
    let s: String = text::string_of(word);
    let d: String = text::debug_of(s.as_str());
    text::put_str(t, d.as_str());
}

/// The text of a message, with the word that it quotes.
pub open spec fn status_text(s: Status, word: Seq<char>) -> Seq<char> {
    match s {
        Status::Blank => Seq::empty(),
        Status::Demo => "demo loaded — space: play   ?: help   :new blank   :e <file.vip> open"@,
        Status::NoAudio => "audio disabled (no output device)"@,
        Status::Oldest => "already at oldest change"@,
        Status::Undone { left } => "undo ("@ + text::dec(left as nat) + " remaining)"@,
        Status::Newest => "already at newest change"@,
        Status::Redone { left } => "redo ("@ + text::dec(left as nat) + " remaining)"@,
        Status::CellDeleted { s, c } => "deleted ["@ + text::hex2(s as nat) + ",ch"@ + text::dec((c + 1) as nat) + "]"@,
        Status::DeletedRow => "deleted row"@,
        Status::DeletedRows { n } => "deleted "@ + text::dec(n as nat) + " rows"@,
        Status::DeletedBar => "deleted bar"@,
        Status::DeletedBars { n } => "deleted "@ + text::dec(n as nat) + " bars"@,
        Status::DeletedPhrase => "deleted phrase"@,
        Status::DeletedChannel => "deleted channel"@,
        Status::DeletedBlock { h, w } => "deleted "@ + text::dec(h as nat) + "×"@ + text::dec(w as nat) + " block"@,
        Status::YankedRow => "yanked row"@,
        Status::YankedRows { n } => "yanked "@ + text::dec(n as nat) + " rows"@,
        Status::YankedBar => "yanked bar"@,
        Status::YankedBars { n } => "yanked "@ + text::dec(n as nat) + " bars"@,
        Status::YankedPhrase => "yanked phrase"@,
        Status::YankedChannel => "yanked channel"@,
        Status::YankedBlock { h, w } => "yanked "@ + text::dec(h as nat) + "×"@ + text::dec(w as nat) + " block"@,
        Status::Insert => "-- INSERT --"@,
        Status::InsertChange => "-- INSERT (change) --"@,
        Status::InsertAppend => "-- INSERT (append) --"@,
        Status::Visual => "-- VISUAL --"@,
        Status::VisualLine => "-- VISUAL LINE --"@,
        Status::RegisterEmpty => "register empty"@,
        Status::Pasted { n } => "pasted "@ + text::dec(n as nat) + " row(s)"@,
        Status::NothingToRepeat => "nothing to repeat"@,
        Status::Cancelled => "cancelled"@,
        Status::UnknownObject => "unknown object"@,
        Status::Replaced { s, c, note } => "replaced ["@ + text::hex2(s as nat) + ",ch"@ + text::dec((c + 1) as nat) + "] with "@ + vip::note_text(note),
        Status::NotPiano { key } => "r: not a piano-row key: "@ + text::debug_char_text(key),
        Status::ExpectPiano => "r: expected piano-row key"@,
        Status::ReplacePrompt => "r — press a piano-row key to replace the cell"@,
        Status::Playing => "playing..."@,
        Status::PlayingNow => "playing"@,
        Status::Stopped => "stopped"@,
        Status::Help => "help — q/Esc/? to close"@,
        Status::InstrumentShown { i } => "instrument "@ + text::hex2(i as nat) + " — Esc to return"@,
        Status::Live { ch, instr, octave } => "-- LIVE -- "@ + channel_label(ch as int) + " i"@ + text::hex2(instr as nat) + " oct"@ + text::dec(octave as nat) + " · z s x d c v g b h n j m plays · Tab/←→ channel · </> octave · R arm · Esc exit"@,
        Status::LivePlaying { ch, instr, octave } => "playing...  ("@ + channel_label(ch as int) + " i"@ + text::hex2(instr as nat) + " oct"@ + text::dec(octave as nat) + ")"@,
        Status::LiveStopped { ch, instr, octave } => "stopped  ("@ + channel_label(ch as int) + " i"@ + text::hex2(instr as nat) + " oct"@ + text::dec(octave as nat) + ")"@,
        Status::LiveChannel { ch, instr, octave } => "live: "@ + channel_label(ch as int) + " i"@ + text::hex2(instr as nat) + " oct"@ + text::dec(octave as nat),
        Status::LiveOctave { octave } => "live: octave "@ + text::dec(octave as nat),
        Status::LiveNote { ch, note, instr } => "live: "@ + channel_label(ch as int) + " "@ + vip::note_text(note) + " (i"@ + text::hex2(instr as nat) + ")"@,
        Status::Recorded { ch, note, step, instr } => "● REC "@ + channel_label(ch as int) + " "@ + vip::note_text(note) + " → step "@ + text::hex2(step as nat) + " (i"@ + text::hex2(instr as nat) + ")"@,
        Status::LiveOff { ch } => "live: "@ + channel_label(ch as int) + " off"@,
        Status::RecNone { ch } => "rec: "@ + channel_label(ch as int) + " disarmed"@,
        Status::RecOn { ch } => "rec: "@ + channel_label(ch as int) + " armed (armed: "@ + word + ")"@,
        Status::RecOff { ch } => "rec: "@ + channel_label(ch as int) + " disarmed (armed: "@ + word + ")"@,
        Status::RecDisarmed => "rec disarmed"@,
        Status::RecAllOff => "rec: all channels disarmed"@,
        Status::Octave { octave } => "octave "@ + text::dec(octave as nat),
        Status::OnlyOnePhrase => "only one phrase"@,
        Status::PhraseShown { i } => "phrase "@ + text::hex2(i as nat),
        Status::PhraseOf { i, last } => "phrase "@ + text::hex2(i as nat) + "/"@ + text::hex2(last as nat),
        Status::NoPhrase { i, have } => "no phrase "@ + text::hex2(i as nat) + " (have "@ + text::dec(have as nat) + ")"@,
        Status::BadPhrase => "bad phrase index: "@ + word,
        Status::NewPhrase { i } => "new phrase "@ + text::hex2(i as nat),
        Status::PhraseCleared => "cleared phrase (last one, not deleted)"@,
        Status::PhraseDeleted { i, now } => "deleted phrase "@ + text::hex2(i as nat) + ", now on "@ + text::hex2(now as nat),
        Status::NoFileLoaded => "error: no file loaded"@,
        Status::NoFileName => "error: no filename (use :w <path>)"@,
        Status::Wrote => "wrote "@ + word,
        Status::Failed => "error: "@ + word,
        Status::NewFile => "new file: "@ + word,
        Status::Loaded => "loaded "@ + word,
        Status::NewSong => "new song (no filename — :w <path> to save)"@,
        Status::NoNoteForVol => "cursor cell has no note — vol only applies to notes"@,
        Status::VolRange { v } => "vol out of range (00–0F): "@ + text::hex2(v as nat),
        Status::BadVol => "bad vol hex: "@ + text::debug_text(word),
        Status::VolSet { v, s, c } => "vol = "@ + text::hex2(v as nat) + " at ["@ + text::hex2(s as nat) + ",ch"@ + text::dec((c + 1) as nat) + "]"@,
        Status::NoNoteForFx => "cursor cell has no note — fx only applies to notes"@,
        Status::FxForm => "fx form: CPP (e.g. A04) — got "@ + text::debug_text(word),
        Status::FxLetter { key } => "fx command must be A-Z or 0-9 — got "@ + text::debug_char_text(key),
        Status::FxParam => "bad fx param hex: "@ + text::debug_text(word),
        Status::FxSet { cmd, param, s, c } => "fx = "@ + seq![cmd as char] + text::hex2(param as nat) + " at ["@ + text::hex2(s as nat) + ",ch"@ + text::dec((c + 1) as nat) + "]"@,
        Status::NoFx => "no fx to clear"@,
        Status::FxCleared { s, c } => "fx cleared at ["@ + text::hex2(s as nat) + ",ch"@ + text::dec((c + 1) as nat) + "]"@,
        Status::BadTranspose => "bad transpose amount: "@ + text::debug_text(word) + " (try +5 or -3)"@,
        Status::TransposeZero => "transpose: 0 semitones (no-op)"@,
        Status::TransposeNone => "transpose: nothing to move (or all clamped)"@,
        Status::TransposedUp { n, by } => "transposed "@ + text::dec(n as nat) + " note(s) by +"@ + text::signed_dec(by as int) + " semitones"@,
        Status::TransposedDown { n, by } => "transposed "@ + text::dec(n as nat) + " note(s) by "@ + text::signed_dec(by as int) + " semitones"@,
        Status::GenDone => word,
        Status::GenFailed => "gen: "@ + word,
        Status::SetUsage => "usage: :set key=value"@,
        Status::BpmSet { n } => "bpm = "@ + text::dec(n as nat),
        Status::BpmRange { n } => "bpm out of range (20–999): "@ + text::dec(n as nat),
        Status::BadBpm => "bad bpm value: "@ + text::debug_text(word),
        Status::StepSet { n } => "edit step = "@ + text::dec(n as nat),
        Status::StepRange { n } => "step out of range (1–16): "@ + text::dec(n as nat),
        Status::BadStep => "bad step value: "@ + text::debug_text(word),
        Status::OctaveSet { n } => "octave = "@ + text::dec(n as nat),
        Status::OctaveRange { n } => "octave out of range (0–8): "@ + text::dec(n as nat),
        Status::BadOctave => "bad octave value: "@ + text::debug_text(word),
        Status::ThemeSet => "theme = "@ + word,
        Status::UnknownTheme => "unknown theme: "@ + text::debug_text(word) + " (try nes or phosphor)"@,
        Status::UnknownSetting => "unknown setting: "@ + word,
        Status::UnknownCommand => "unknown command: "@ + word,
        Status::NoDirectory => "no such directory: "@ + word,
        Status::NoMatches => "no matches for '"@ + word + "'"@,
        Status::Matches { n } => text::dec(n as nat) + " matches: "@ + word,
    }
}

impl Status {
    /// The text of a message, with the word that it quotes.
    pub fn text(&self, word: &[char]) -> (r: String)
        ensures
            r@ == status_text(*self, word@),
    {
        let mut t: Vec<char> = Vec::new();
        match *self {
            Status::Blank => {
            },
            Status::Demo => {
                text::put_str(&mut t, "demo loaded — space: play   ?: help   :new blank   :e <file.vip> open");
            },
            Status::NoAudio => {
                text::put_str(&mut t, "audio disabled (no output device)");
            },
            Status::Oldest => {
                text::put_str(&mut t, "already at oldest change");
            },
            Status::Undone { left } => {
                text::put_str(&mut t, "undo (");
                text::put_dec(&mut t, left as u64);
                text::put_str(&mut t, " remaining)");
            },
            Status::Newest => {
                text::put_str(&mut t, "already at newest change");
            },
            Status::Redone { left } => {
                text::put_str(&mut t, "redo (");
                text::put_dec(&mut t, left as u64);
                text::put_str(&mut t, " remaining)");
            },
            Status::CellDeleted { s, c } => {
                text::put_str(&mut t, "deleted [");
                text::put_hex2(&mut t, s as u64);
                text::put_str(&mut t, ",ch");
                text::put_dec(&mut t, c as u64 + 1);
                text::put_str(&mut t, "]");
            },
            Status::DeletedRow => {
                text::put_str(&mut t, "deleted row");
            },
            Status::DeletedRows { n } => {
                text::put_str(&mut t, "deleted ");
                text::put_dec(&mut t, n as u64);
                text::put_str(&mut t, " rows");
            },
            Status::DeletedBar => {
                text::put_str(&mut t, "deleted bar");
            },
            Status::DeletedBars { n } => {
                text::put_str(&mut t, "deleted ");
                text::put_dec(&mut t, n as u64);
                text::put_str(&mut t, " bars");
            },
            Status::DeletedPhrase => {
                text::put_str(&mut t, "deleted phrase");
            },
            Status::DeletedChannel => {
                text::put_str(&mut t, "deleted channel");
            },
            Status::DeletedBlock { h, w } => {
                text::put_str(&mut t, "deleted ");
                text::put_dec(&mut t, h as u64);
                text::put_str(&mut t, "×");
                text::put_dec(&mut t, w as u64);
                text::put_str(&mut t, " block");
            },
            Status::YankedRow => {
                text::put_str(&mut t, "yanked row");
            },
            Status::YankedRows { n } => {
                text::put_str(&mut t, "yanked ");
                text::put_dec(&mut t, n as u64);
                text::put_str(&mut t, " rows");
            },
            Status::YankedBar => {
                text::put_str(&mut t, "yanked bar");
            },
            Status::YankedBars { n } => {
                text::put_str(&mut t, "yanked ");
                text::put_dec(&mut t, n as u64);
                text::put_str(&mut t, " bars");
            },
            Status::YankedPhrase => {
                text::put_str(&mut t, "yanked phrase");
            },
            Status::YankedChannel => {
                text::put_str(&mut t, "yanked channel");
            },
            Status::YankedBlock { h, w } => {
                text::put_str(&mut t, "yanked ");
                text::put_dec(&mut t, h as u64);
                text::put_str(&mut t, "×");
                text::put_dec(&mut t, w as u64);
                text::put_str(&mut t, " block");
            },
            Status::Insert => {
                text::put_str(&mut t, "-- INSERT --");
            },
            Status::InsertChange => {
                text::put_str(&mut t, "-- INSERT (change) --");
            },
            Status::InsertAppend => {
                text::put_str(&mut t, "-- INSERT (append) --");
            },
            Status::Visual => {
                text::put_str(&mut t, "-- VISUAL --");
            },
            Status::VisualLine => {
                text::put_str(&mut t, "-- VISUAL LINE --");
            },
            Status::RegisterEmpty => {
                text::put_str(&mut t, "register empty");
            },
            Status::Pasted { n } => {
                text::put_str(&mut t, "pasted ");
                text::put_dec(&mut t, n as u64);
                text::put_str(&mut t, " row(s)");
            },
            Status::NothingToRepeat => {
                text::put_str(&mut t, "nothing to repeat");
            },
            Status::Cancelled => {
                text::put_str(&mut t, "cancelled");
            },
            Status::UnknownObject => {
                text::put_str(&mut t, "unknown object");
            },
            Status::Replaced { s, c, note } => {
                text::put_str(&mut t, "replaced [");
                text::put_hex2(&mut t, s as u64);
                text::put_str(&mut t, ",ch");
                text::put_dec(&mut t, c as u64 + 1);
                text::put_str(&mut t, "] with ");
                vip::put_note(&mut t, note);
            },
            Status::NotPiano { key } => {
                text::put_str(&mut t, "r: not a piano-row key: ");
                put_debug_char(&mut t, key);
            },
            Status::ExpectPiano => {
                text::put_str(&mut t, "r: expected piano-row key");
            },
            Status::ReplacePrompt => {
                text::put_str(&mut t, "r — press a piano-row key to replace the cell");
            },
            Status::Playing => {
                text::put_str(&mut t, "playing...");
            },
            Status::PlayingNow => {
                text::put_str(&mut t, "playing");
            },
            Status::Stopped => {
                text::put_str(&mut t, "stopped");
            },
            Status::Help => {
                text::put_str(&mut t, "help — q/Esc/? to close");
            },
            Status::InstrumentShown { i } => {
                text::put_str(&mut t, "instrument ");
                text::put_hex2(&mut t, i as u64);
                text::put_str(&mut t, " — Esc to return");
            },
            Status::Live { ch, instr, octave } => {
                text::put_str(&mut t, "-- LIVE -- ");
                put_label(&mut t, ch);
                text::put_str(&mut t, " i");
                text::put_hex2(&mut t, instr as u64);
                text::put_str(&mut t, " oct");
                text::put_dec(&mut t, octave as u64);
                text::put_str(&mut t, " · z s x d c v g b h n j m plays · Tab/←→ channel · </> octave · R arm · Esc exit");
            },
            Status::LivePlaying { ch, instr, octave } => {
                text::put_str(&mut t, "playing...  (");
                put_label(&mut t, ch);
                text::put_str(&mut t, " i");
                text::put_hex2(&mut t, instr as u64);
                text::put_str(&mut t, " oct");
                text::put_dec(&mut t, octave as u64);
                text::put_str(&mut t, ")");
            },
            Status::LiveStopped { ch, instr, octave } => {
                text::put_str(&mut t, "stopped  (");
                put_label(&mut t, ch);
                text::put_str(&mut t, " i");
                text::put_hex2(&mut t, instr as u64);
                text::put_str(&mut t, " oct");
                text::put_dec(&mut t, octave as u64);
                text::put_str(&mut t, ")");
            },
            Status::LiveChannel { ch, instr, octave } => {
                text::put_str(&mut t, "live: ");
                put_label(&mut t, ch);
                text::put_str(&mut t, " i");
                text::put_hex2(&mut t, instr as u64);
                text::put_str(&mut t, " oct");
                text::put_dec(&mut t, octave as u64);
            },
            Status::LiveOctave { octave } => {
                text::put_str(&mut t, "live: octave ");
                text::put_dec(&mut t, octave as u64);
            },
            Status::LiveNote { ch, note, instr } => {
                text::put_str(&mut t, "live: ");
                put_label(&mut t, ch);
                text::put_str(&mut t, " ");
                vip::put_note(&mut t, note);
                text::put_str(&mut t, " (i");
                text::put_hex2(&mut t, instr as u64);
                text::put_str(&mut t, ")");
            },
            Status::Recorded { ch, note, step, instr } => {
                text::put_str(&mut t, "● REC ");
                put_label(&mut t, ch);
                text::put_str(&mut t, " ");
                vip::put_note(&mut t, note);
                text::put_str(&mut t, " → step ");
                text::put_hex2(&mut t, step as u64);
                text::put_str(&mut t, " (i");
                text::put_hex2(&mut t, instr as u64);
                text::put_str(&mut t, ")");
            },
            Status::LiveOff { ch } => {
                text::put_str(&mut t, "live: ");
                put_label(&mut t, ch);
                text::put_str(&mut t, " off");
            },
            Status::RecNone { ch } => {
                text::put_str(&mut t, "rec: ");
                put_label(&mut t, ch);
                text::put_str(&mut t, " disarmed");
            },
            Status::RecOn { ch } => {
                text::put_str(&mut t, "rec: ");
                put_label(&mut t, ch);
                text::put_str(&mut t, " armed (armed: ");
                text::put(&mut t, word);
                text::put_str(&mut t, ")");
            },
            Status::RecOff { ch } => {
                text::put_str(&mut t, "rec: ");
                put_label(&mut t, ch);
                text::put_str(&mut t, " disarmed (armed: ");
                text::put(&mut t, word);
                text::put_str(&mut t, ")");
            },
            Status::RecDisarmed => {
                text::put_str(&mut t, "rec disarmed");
            },
            Status::RecAllOff => {
                text::put_str(&mut t, "rec: all channels disarmed");
            },
            Status::Octave { octave } => {
                text::put_str(&mut t, "octave ");
                text::put_dec(&mut t, octave as u64);
            },
            Status::OnlyOnePhrase => {
                text::put_str(&mut t, "only one phrase");
            },
            Status::PhraseShown { i } => {
                text::put_str(&mut t, "phrase ");
                text::put_hex2(&mut t, i as u64);
            },
            Status::PhraseOf { i, last } => {
                text::put_str(&mut t, "phrase ");
                text::put_hex2(&mut t, i as u64);
                text::put_str(&mut t, "/");
                text::put_hex2(&mut t, last as u64);
            },
            Status::NoPhrase { i, have } => {
                text::put_str(&mut t, "no phrase ");
                text::put_hex2(&mut t, i as u64);
                text::put_str(&mut t, " (have ");
                text::put_dec(&mut t, have as u64);
                text::put_str(&mut t, ")");
            },
            Status::BadPhrase => {
                text::put_str(&mut t, "bad phrase index: ");
                text::put(&mut t, word);
            },
            Status::NewPhrase { i } => {
                text::put_str(&mut t, "new phrase ");
                text::put_hex2(&mut t, i as u64);
            },
            Status::PhraseCleared => {
                text::put_str(&mut t, "cleared phrase (last one, not deleted)");
            },
            Status::PhraseDeleted { i, now } => {
                text::put_str(&mut t, "deleted phrase ");
                text::put_hex2(&mut t, i as u64);
                text::put_str(&mut t, ", now on ");
                text::put_hex2(&mut t, now as u64);
            },
            Status::NoFileLoaded => {
                text::put_str(&mut t, "error: no file loaded");
            },
            Status::NoFileName => {
                text::put_str(&mut t, "error: no filename (use :w <path>)");
            },
            Status::Wrote => {
                text::put_str(&mut t, "wrote ");
                text::put(&mut t, word);
            },
            Status::Failed => {
                text::put_str(&mut t, "error: ");
                text::put(&mut t, word);
            },
            Status::NewFile => {
                text::put_str(&mut t, "new file: ");
                text::put(&mut t, word);
            },
            Status::Loaded => {
                text::put_str(&mut t, "loaded ");
                text::put(&mut t, word);
            },
            Status::NewSong => {
                text::put_str(&mut t, "new song (no filename — :w <path> to save)");
            },
            Status::NoNoteForVol => {
                text::put_str(&mut t, "cursor cell has no note — vol only applies to notes");
            },
            Status::VolRange { v } => {
                text::put_str(&mut t, "vol out of range (00–0F): ");
                text::put_hex2(&mut t, v as u64);
            },
            Status::BadVol => {
                text::put_str(&mut t, "bad vol hex: ");
                put_debug(&mut t, word);
            },
            Status::VolSet { v, s, c } => {
                text::put_str(&mut t, "vol = ");
                text::put_hex2(&mut t, v as u64);
                text::put_str(&mut t, " at [");
                text::put_hex2(&mut t, s as u64);
                text::put_str(&mut t, ",ch");
                text::put_dec(&mut t, c as u64 + 1);
                text::put_str(&mut t, "]");
            },
            Status::NoNoteForFx => {
                text::put_str(&mut t, "cursor cell has no note — fx only applies to notes");
            },
            Status::FxForm => {
                text::put_str(&mut t, "fx form: CPP (e.g. A04) — got ");
                put_debug(&mut t, word);
            },
            Status::FxLetter { key } => {
                text::put_str(&mut t, "fx command must be A-Z or 0-9 — got ");
                put_debug_char(&mut t, key);
            },
            Status::FxParam => {
                text::put_str(&mut t, "bad fx param hex: ");
                put_debug(&mut t, word);
            },
            Status::FxSet { cmd, param, s, c } => {
                text::put_str(&mut t, "fx = ");
                t.push(cmd as char);
                text::put_hex2(&mut t, param as u64);
                text::put_str(&mut t, " at [");
                text::put_hex2(&mut t, s as u64);
                text::put_str(&mut t, ",ch");
                text::put_dec(&mut t, c as u64 + 1);
                text::put_str(&mut t, "]");
            },
            Status::NoFx => {
                text::put_str(&mut t, "no fx to clear");
            },
            Status::FxCleared { s, c } => {
                text::put_str(&mut t, "fx cleared at [");
                text::put_hex2(&mut t, s as u64);
                text::put_str(&mut t, ",ch");
                text::put_dec(&mut t, c as u64 + 1);
                text::put_str(&mut t, "]");
            },
            Status::BadTranspose => {
                text::put_str(&mut t, "bad transpose amount: ");
                put_debug(&mut t, word);
                text::put_str(&mut t, " (try +5 or -3)");
            },
            Status::TransposeZero => {
                text::put_str(&mut t, "transpose: 0 semitones (no-op)");
            },
            Status::TransposeNone => {
                text::put_str(&mut t, "transpose: nothing to move (or all clamped)");
            },
            Status::TransposedUp { n, by } => {
                text::put_str(&mut t, "transposed ");
                text::put_dec(&mut t, n as u64);
                text::put_str(&mut t, " note(s) by +");
                text::put_int(&mut t, by as i64);
                text::put_str(&mut t, " semitones");
            },
            Status::TransposedDown { n, by } => {
                text::put_str(&mut t, "transposed ");
                text::put_dec(&mut t, n as u64);
                text::put_str(&mut t, " note(s) by ");
                text::put_int(&mut t, by as i64);
                text::put_str(&mut t, " semitones");
            },
            Status::GenDone => {
                text::put(&mut t, word);
            },
            Status::GenFailed => {
                text::put_str(&mut t, "gen: ");
                text::put(&mut t, word);
            },
            Status::SetUsage => {
                text::put_str(&mut t, "usage: :set key=value");
            },
            Status::BpmSet { n } => {
                text::put_str(&mut t, "bpm = ");
                text::put_dec(&mut t, n as u64);
            },
            Status::BpmRange { n } => {
                text::put_str(&mut t, "bpm out of range (20–999): ");
                text::put_dec(&mut t, n as u64);
            },
            Status::BadBpm => {
                text::put_str(&mut t, "bad bpm value: ");
                put_debug(&mut t, word);
            },
            Status::StepSet { n } => {
                text::put_str(&mut t, "edit step = ");
                text::put_dec(&mut t, n as u64);
            },
            Status::StepRange { n } => {
                text::put_str(&mut t, "step out of range (1–16): ");
                text::put_dec(&mut t, n as u64);
            },
            Status::BadStep => {
                text::put_str(&mut t, "bad step value: ");
                put_debug(&mut t, word);
            },
            Status::OctaveSet { n } => {
                text::put_str(&mut t, "octave = ");
                text::put_dec(&mut t, n as u64);
            },
            Status::OctaveRange { n } => {
                text::put_str(&mut t, "octave out of range (0–8): ");
                text::put_dec(&mut t, n as u64);
            },
            Status::BadOctave => {
                text::put_str(&mut t, "bad octave value: ");
                put_debug(&mut t, word);
            },
            Status::ThemeSet => {
                text::put_str(&mut t, "theme = ");
                text::put(&mut t, word);
            },
            Status::UnknownTheme => {
                text::put_str(&mut t, "unknown theme: ");
                put_debug(&mut t, word);
                text::put_str(&mut t, " (try nes or phosphor)");
            },
            Status::UnknownSetting => {
                text::put_str(&mut t, "unknown setting: ");
                text::put(&mut t, word);
            },
            Status::UnknownCommand => {
                text::put_str(&mut t, "unknown command: ");
                text::put(&mut t, word);
            },
            Status::NoDirectory => {
                text::put_str(&mut t, "no such directory: ");
                text::put(&mut t, word);
            },
            Status::NoMatches => {
                text::put_str(&mut t, "no matches for '");
                text::put(&mut t, word);
                text::put_str(&mut t, "'");
            },
            Status::Matches { n } => {
                text::put_dec(&mut t, n as u64);
                text::put_str(&mut t, " matches: ");
                text::put(&mut t, word);
            },
        }
        assert(t@ =~= status_text(*self, word@));
        text::string_of(t.as_slice())
    }
}

} // verus!
