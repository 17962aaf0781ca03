//! Presentation of times as `MM:SS.mmm`.
//!
//! Times are held as whole nanoseconds; at the pipeline's 16 kHz sample rate
//! every sample position is an exact number of them.

use vstd::prelude::*;
use crate::text::{padded_decimal, push_char, push_padded_decimal};

verus! {

/// Sample rate that the model consumes.
pub const SAMPLE_RATE: u64 = 16_000;

/// Duration of one sample at [`SAMPLE_RATE`], in nanoseconds.
pub const NANOS_PER_SAMPLE: u64 = 62_500;

/// `nanos` rounded to the nearest millisecond, halves rounding up.
pub open spec fn rounded_millis(nanos: nat) -> nat {
    nanos / 1_000_000 + if nanos % 1_000_000 >= 500_000 { 1nat } else { 0nat }
}

/// `MM:SS.mmm` for a time of `nanos`: minutes are not wrapped into hours,
/// and take more than two digits when needed.
pub open spec fn timestamp_text(nanos: nat) -> Seq<char> {
    let ms = rounded_millis(nanos);
    padded_decimal(ms / 60_000, 2) + seq![':'] + padded_decimal((ms / 1000) % 60, 2) + seq!['.']
        + padded_decimal(ms % 1000, 3)
}

/// Formats a time given in nanoseconds as `MM:SS.mmm`.
pub fn format_timestamp(nanos: u64) -> (s: String)
    ensures
        s@ == timestamp_text(nanos as nat),
{
    let ms: u64 = nanos / 1_000_000 + if nanos % 1_000_000 >= 500_000 { 1u64 } else { 0u64 };
    let mut s = String::new();
    push_padded_decimal(&mut s, ms / 60_000, 2);
    push_char(&mut s, ':');
    push_padded_decimal(&mut s, (ms / 1000) % 60, 2);
    push_char(&mut s, '.');
    push_padded_decimal(&mut s, ms % 1000, 3);
    assert(s@ =~= timestamp_text(nanos as nat));
    s
}

} // verus!
