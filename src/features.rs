//! Glue between the three neural calls: which named input receives what,
//! which output is read, and the axis order of the spectral features.

use vstd::prelude::*;
use crate::error::TensorError;
use crate::text::{contains_seq, contains_str};

verus! {

/// Number of spectral channels that the feature extractor produces.
pub const FEATURE_CHANNELS: usize = 128;

/// What a feature-extractor input receives.
#[derive(Clone, Copy, Debug, PartialEq, Eq, Structural)]
pub enum FeatureInput {
    /// The waveform samples, shaped (batch, samples).
    Waveforms,
    /// The number of samples, shaped (batch).
    WaveformLengths,
    /// Nothing: the input is left out.
    Unused,
}

/// What an encoder input receives.
#[derive(Clone, Copy, Debug, PartialEq, Eq, Structural)]
pub enum EncoderInput {
    /// The canonical feature tensor.
    Features,
    /// The number of feature frames, shaped (batch).
    Length,
}

/// The role of the feature-extractor input called `name`.
pub open spec fn feature_input_role(name: Seq<char>) -> FeatureInput {
    if contains_seq(name, "waveforms"@) && !contains_seq(name, "lens"@) {
        FeatureInput::Waveforms
    } else if contains_seq(name, "lens"@) {
        FeatureInput::WaveformLengths
    } else {
        FeatureInput::Unused
    }
}

/// Decides what the feature-extractor input called `name` receives.
pub fn feature_extractor_input(name: &str) -> (r: FeatureInput)
    ensures
        r == feature_input_role(name@),
{
    let lens = contains_str(name, "lens");
    if contains_str(name, "waveforms") && !lens {
        FeatureInput::Waveforms
    } else if lens {
        FeatureInput::WaveformLengths
    } else {
        FeatureInput::Unused
    }
}

/// Decides what the encoder input called `name` receives: inputs whose
/// name mentions `len` take the frame count, all others the features.
pub fn encoder_input(name: &str) -> (r: EncoderInput)
    ensures
        r == (if contains_seq(name@, "len"@) {
            EncoderInput::Length
        } else {
            EncoderInput::Features
        }),
{
    if contains_str(name, "len") {
        EncoderInput::Length
    } else {
        EncoderInput::Features
    }
}

/// Picks the encoder output to read among outputs called `names`: the first
/// one called `outputs`, else the first one.
pub fn encoder_output_index(names: &Vec<String>) -> (r: Result<usize, TensorError>)
    ensures
        r is Ok <==> names@.len() > 0,
        names@.len() == 0 ==> r == Err::<usize, _>(TensorError::MissingOutput),
        r matches Ok(i) ==> i < names@.len() && (if exists|j: int|
            0 <= j < names@.len() && #[trigger] names@[j]@ == "outputs"@ {
            names@[i as int]@ == "outputs"@ && forall|j: int|
                0 <= j < i ==> #[trigger] names@[j]@ != "outputs"@
        } else {
            i == 0
        }),
{
    let target = String::from_str("outputs");
    let mut i: usize = 0;
    while i < names.len()
        invariant
            i <= names@.len(),
            target@ == "outputs"@,
            forall|j: int| 0 <= j < i ==> #[trigger] names@[j]@ != "outputs"@,
        decreases names@.len() - i,
    {
        if names[i] == target {
            return Ok(i);
        }
        i += 1;
    }
    if names.len() == 0 {
        Err(TensorError::MissingOutput)
    } else {
        Ok(0)
    }
}

/// The (batch, embedding, frames) sizes of an encoder output of shape
/// `shape`.
pub fn encoder_output_dims(shape: &[i64]) -> (r: Result<(usize, usize, usize), TensorError>)
    ensures
        r is Ok <==> shape@.len() == 3 && (forall|i: int|
            0 <= i < 3 ==> 0 <= #[trigger] shape@[i] <= usize::MAX),
        r matches Ok((b, d, t)) ==> b == shape@[0] && d == shape@[1] && t == shape@[2],
        r is Err ==> r == Err::<(usize, usize, usize), _>(TensorError::BadShape),
{
    if shape.len() != 3 {
        return Err(TensorError::BadShape);
    }
    let max = usize::MAX as u64;
    let mut i: usize = 0;
    while i < 3
        invariant
            i <= 3,
            shape@.len() == 3,
            max == usize::MAX,
            forall|j: int| 0 <= j < i ==> 0 <= #[trigger] shape@[j] <= usize::MAX,
        decreases 3 - i,
    {
        if shape[i] < 0 || shape[i] as u64 > max {
            return Err(TensorError::BadShape);
        }
        i += 1;
    }
    Ok((shape[0] as usize, shape[1] as usize, shape[2] as usize))
}

/// Position of element (batch `b`, channel `f`, frame `t`) in a
/// channel-major tensor with `channels` channels and `frames` frames.
pub open spec fn channel_major(b: nat, f: nat, t: nat, channels: nat, frames: nat) -> nat {
    (b * channels + f) * frames + t
}

/// Position of element (batch `b`, channel `f`, frame `t`) in a time-major
/// tensor with `channels` channels and `frames` frames.
pub open spec fn time_major(b: nat, f: nat, t: nat, channels: nat, frames: nat) -> nat {
    (b * frames + t) * channels + f
}

/// Whether `out` is the channel-major rearrangement of the time-major `data`.
pub open spec fn is_transposed<T>(data: Seq<T>, out: Seq<T>, batch: nat, frames: nat, channels: nat) -> bool {
    &&& out.len() == batch * channels * frames
    &&& forall|b: nat, f: nat, t: nat|
        b < batch && f < channels && t < frames ==> #[trigger] out[channel_major(
            b,
            f,
            t,
            channels,
            frames,
        ) as int] == data[time_major(b, f, t, channels, frames) as int]
}

proof fn lemma_index_bounds(b: nat, f: nat, t: nat, batch: nat, frames: nat, channels: nat)
    requires
        b < batch,
        f < channels,
        t < frames,
    ensures
        channel_major(b, f, t, channels, frames) < batch * channels * frames,
        time_major(b, f, t, channels, frames) < batch * channels * frames,
        channel_major(b, f, t, channels, frames) == b * channels * frames + f * frames + t,
{
    assert((b * channels + f) * frames + t < batch * channels * frames) by (nonlinear_arith)
        requires
            b < batch,
            f < channels,
            t < frames,
    ;
    assert((b * frames + t) * channels + f < batch * channels * frames) by (nonlinear_arith)
        requires
            b < batch,
            f < channels,
            t < frames,
    ;
    assert((b * channels + f) * frames + t == b * channels * frames + f * frames + t)
        by (nonlinear_arith);
}

/// Rearranges a time-major tensor (batch, frames, channels) into channel-major
/// order (batch, channels, frames).
pub fn transpose_time_major<T: Copy>(data: &Vec<T>, batch: usize, frames: usize, channels: usize) -> (out: Vec<T>)
    requires
        data@.len() == batch * frames * channels,
    ensures
        is_transposed(data@, out@, batch as nat, frames as nat, channels as nat),
{
    let ghost (nb, nt, nc) = (batch as nat, frames as nat, channels as nat);
    proof {
        assert(nb * nt * nc == nb * nc * nt) by (nonlinear_arith);
    }
    let len = data.len();
    let mut out: Vec<T> = Vec::new();
    let mut b: usize = 0;
    assert(0 * nc * nt == 0) by (nonlinear_arith);
    while b < batch
        invariant
            b <= batch,
            data@.len() == nb * nc * nt,
                len == data@.len(),
            nb == batch && nt == frames && nc == channels,
            out@.len() == b * nc * nt,
            forall|b2: nat, f2: nat, t2: nat|
                b2 < b && f2 < nc && t2 < nt ==> #[trigger] out@[channel_major(b2, f2, t2, nc, nt) as int]
                    == data@[time_major(b2, f2, t2, nc, nt) as int],
        decreases batch - b,
    {
        let mut f: usize = 0;
        while f < channels
            invariant
                b < batch,
                f <= channels,
                data@.len() == nb * nc * nt,
                len == data@.len(),
                nb == batch && nt == frames && nc == channels,
                out@.len() == b * nc * nt + f * nt,
                forall|b2: nat, f2: nat, t2: nat|
                    (b2 < b || (b2 == b && f2 < f)) && f2 < nc && t2 < nt ==> #[trigger] out@[channel_major(
                        b2,
                        f2,
                        t2,
                        nc,
                        nt,
                    ) as int] == data@[time_major(b2, f2, t2, nc, nt) as int],
            decreases channels - f,
        {
            let mut t: usize = 0;
            while t < frames
                invariant
                    b < batch,
                    f < channels,
                    t <= frames,
                    data@.len() == nb * nc * nt,
                len == data@.len(),
                    nb == batch && nt == frames && nc == channels,
                    out@.len() == b * nc * nt + f * nt + t,
                    forall|b2: nat, f2: nat, t2: nat|
                        (b2 < b || (b2 == b && f2 < f) || (b2 == b && f2 == f && t2 < t)) && f2 < nc
                            && t2 < nt ==> #[trigger] out@[channel_major(b2, f2, t2, nc, nt) as int]
                            == data@[time_major(b2, f2, t2, nc, nt) as int],
                decreases frames - t,
            {
                proof {
                    lemma_index_bounds(b as nat, f as nat, t as nat, nb, nt, nc);
                    assert(b * nt + t <= (b * nt + t) * nc) by (nonlinear_arith)
                        requires
                            f < nc,
                    ;
                    assert(b * nt <= b * nt + t);
                }
                let src = (b * frames + t) * channels + f;
                let ghost before = out@;
                out.push(data[src]);
                proof {
                    assert forall|b2: nat, f2: nat, t2: nat|
                        (b2 < b || (b2 == b && f2 < f) || (b2 == b && f2 == f && t2 < t + 1)) && f2
                            < nc && t2 < nt implies #[trigger] out@[channel_major(
                            b2,
                            f2,
                            t2,
                            nc,
                            nt,
                        ) as int] == data@[time_major(b2, f2, t2, nc, nt) as int] by {
                        lemma_index_bounds(b2, f2, t2, nb, nt, nc);
                        if b2 == b && f2 == f && t2 == t {
                        } else {
                            lemma_order(b2, f2, t2, b as nat, f as nat, t as nat, nc, nt);
                        }
                    }
                }
                t += 1;
            }
            proof {
                assert(out@.len() == b * nc * nt + (f + 1) * nt) by (nonlinear_arith)
                    requires
                        out@.len() == b * nc * nt + f * nt + nt,
                ;
            }
            f += 1;
        }
        proof {
            assert(out@.len() == (b + 1) * nc * nt) by (nonlinear_arith)
                requires
                    out@.len() == b * nc * nt + nc * nt,
            ;
        }
        b += 1;
    }
    out
}

proof fn lemma_order(b2: nat, f2: nat, t2: nat, b: nat, f: nat, t: nat, nc: nat, nt: nat)
    requires
        b2 < b || (b2 == b && f2 < f) || (b2 == b && f2 == f && t2 < t),
        f2 < nc,
        t2 < nt,
        f < nc,
        t < nt,
    ensures
        channel_major(b2, f2, t2, nc, nt) < channel_major(b, f, t, nc, nt),
{
    if b2 < b {
        assert((b2 * nc + f2) * nt + t2 < (b * nc + f) * nt + t) by (nonlinear_arith)
            requires
                b2 < b,
                f2 < nc,
                t2 < nt,
        ;
    } else if f2 < f {
        assert((b2 * nc + f2) * nt + t2 < (b * nc + f) * nt + t) by (nonlinear_arith)
            requires
                b2 == b,
                f2 < f,
                t2 < nt,
        ;
    }
}

/// Whether `shape` is a three-axis shape whose axes are all non-negative
/// and whose element count is `len`.
pub open spec fn shape_holds(shape: Seq<i64>, len: nat) -> bool {
    &&& shape.len() == 3
    &&& shape[0] >= 0 && shape[1] >= 0 && shape[2] >= 0
    &&& shape[0] <= usize::MAX && shape[1] <= usize::MAX && shape[2] <= usize::MAX
    &&& shape[0] * shape[1] * shape[2] == len
}

/// Brings the feature extractor's output, of shape `shape` and values
/// `data`, into canonical (batch, channel, frame) order with
/// [`FEATURE_CHANNELS`] channels. The channel axis is recognised by its
/// size: second means the order is already canonical, third means the
/// tensor is time-major and gets transposed. Returns the values, the batch
/// size and the number of frames.
pub fn canonical_features<T: Copy>(shape: &[i64], data: Vec<T>) -> (r: Result<
    (Vec<T>, usize, usize),
    TensorError,
>)
    ensures
        r is Ok <==> shape_holds(shape@, data@.len()) && (shape@[1] == FEATURE_CHANNELS
            || shape@[2] == FEATURE_CHANNELS),
        r is Err ==> r == Err::<(Vec<T>, usize, usize), _>(TensorError::BadShape),
        r matches Ok((out, batch, frames)) ==> {
            &&& batch == shape@[0]
            &&& shape@[1] == FEATURE_CHANNELS ==> frames == shape@[2] && out@ == data@
            &&& shape@[1] != FEATURE_CHANNELS ==> frames == shape@[1] && is_transposed(
                data@,
                out@,
                batch as nat,
                frames as nat,
                FEATURE_CHANNELS as nat,
            )
        },
{
    if shape.len() != 3 || shape[0] < 0 || shape[1] < 0 || shape[2] < 0 {
        return Err(TensorError::BadShape);
    }
    let max = usize::MAX as u64;
    if shape[0] as u64 > max || shape[1] as u64 > max || shape[2] as u64 > max {
        return Err(TensorError::BadShape);
    }
    let len = data.len();
    let b = shape[0] as usize;
    let s1 = shape[1] as usize;
    let s2 = shape[2] as usize;
    let count = match b.checked_mul(s1) {
        Some(x) => x.checked_mul(s2),
        None => {
            proof {
                assert(b * s1 * s2 >= b * s1 || s2 == 0) by (nonlinear_arith);
                if s2 == 0 {
                    assert(b * s1 * s2 == 0) by (nonlinear_arith)
                        requires
                            s2 == 0,
                    ;
                }
            }
            if s2 == 0 && len == 0 {
                Some(0)
            } else {
                None
            }
        },
    };
    match count {
        Some(n) if n == len => {},
        _ => {
            return Err(TensorError::BadShape);
        },
    }
    if s1 == FEATURE_CHANNELS {
        Ok((data, b, s2))
    } else if s2 == FEATURE_CHANNELS {
        proof {
            assert(b * s1 * s2 == b * s1 * FEATURE_CHANNELS);
        }
        let out = transpose_time_major(&data, b, s1, FEATURE_CHANNELS);
        Ok((out, b, s1))
    } else {
        Err(TensorError::BadShape)
    }
}

} // verus!
