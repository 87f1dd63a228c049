//! Bringing a Standard MIDI File in as a song, driven by a map file.
//!
//! The map holds every decision: which track goes to which channel, how
//! chords collapse to one voice, what each drum becomes. Rows are sixteenth
//! notes; held notes become hold cells.

pub mod smf;
pub mod vmap;
pub mod arrange;
pub mod musical;
pub mod words;

pub use self::arrange::{import, Report};
pub use self::smf::{parse_midi, Midi, MidiNote, MidiTrack};
pub use self::vmap::{parse_map, DrumTarget, ImportMap, TrackMap};
