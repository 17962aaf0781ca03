//! Verified core of an on-device speech-to-text pipeline built around a
//! token-and-duration (TDT) transducer, plus the clip-export helpers of the
//! media cutter that hosts it.
//!
//! The numeric work (audio decoding, resampling, neural inference) runs
//! outside this crate; everything that decides, indexes, parses or formats
//! lives here with its contract.

pub mod argmax;
pub mod detok;
pub mod error;
pub mod features;
pub mod text;
pub mod transcript;
pub mod timecode;
pub mod timestamp;
pub mod video;
pub mod vocab;
pub mod tdt;
