//! A de-esser for 16-bit mono PCM audio sampled at 44100 Hz.
//!
//! The library holds everything that is decided between the two ends of the
//! pipeline
//!
//! ```text
//!   source  -->  progress report  -->  de-esser  -->  sink
//! ```
//!
//! Input and output, the clock and the floating point arithmetic of the samples
//! are the caller's: the stages say what to do next, or take the arithmetic as
//! functions.
//!
//! * [`wav`]: headers and samples of WAV files, in both directions.
//! * [`progress`]: the progress line.
//! * [`deesser`]: the de-esser, which is made of
//!   [`dsp`] (filters), [`band`] (the detector of one sub band), [`event`]
//!   (clicks that start together) and [`ring`] (audio that is held back).
//! * [`schedule`], [`safety`] and [`accounting`]: the mathematical model of the
//!   de-esser, what always holds of it, and what it owes to its input.
//! * [`whole`]: what the de-esser does to a whole signal, from the first sample to
//!   the last.
//! * [`command`]: the command line.
//! * [`text`]: decimal notation.

pub mod accounting;
pub mod band;
pub mod command;
pub mod deesser;
pub mod dsp;
pub mod event;
pub mod progress;
pub mod ring;
pub mod safety;
pub mod schedule;
pub mod text;
pub mod wav;
pub mod whole;
