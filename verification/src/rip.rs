//! Reading music back out of a register log.
//!
//! A frame table says what the chip was doing; this module decides what a
//! tracker would have written to make it do that: where the rows are, which
//! key-ons are notes, what pitch each one was, which instrument played it,
//! and which rows are the same phrase played again.

pub mod clock;
pub mod envelope;
pub mod expressive;
pub mod faithful;
pub mod pitch;
pub mod report;
pub mod ripper;
pub mod tempo;
pub mod trace;
pub mod transcribe;
pub mod tuning;

pub use self::clock::{fit_grid, Fit, Grid};
pub use self::report::Report;
pub use self::ripper::{rip, RipError, RipOptions};
