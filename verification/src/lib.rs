//! A keyboard-driven chiptune tracker's core: songs and their text format,
//! generators, importers, the register-log transcriber and the editor state.

pub mod text;
pub mod binary;
pub mod song;
pub mod vip;
pub mod gen;
pub mod style;
pub mod import;
pub mod rip;
pub mod dpcm;
pub mod compile;
pub mod driver;
pub mod audio;
pub mod midi;
pub mod sprite;
pub mod modulation;
pub mod viz;
pub mod warnings;
pub mod editor;
pub mod cli;
