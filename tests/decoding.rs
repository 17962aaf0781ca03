use ai_media_cutter::error::TensorError;
use ai_media_cutter::features::{
    canonical_features, encoder_input, encoder_output_index, feature_extractor_input,
    transpose_time_major, EncoderInput, FeatureInput,
};
use ai_media_cutter::tdt::{joint_channels, TdtDecoder, MAX_DECODED_TOKENS};
use ai_media_cutter::vocab::VocabInfo;
use std::collections::HashMap;

fn vocab(size: usize, blank_id: usize) -> VocabInfo {
    let mut id_to_token = HashMap::new();
    for i in 0..size {
        id_to_token.insert(i, format!(" w{}", i));
    }
    VocabInfo {
        id_to_token,
        vocab_size: size,
        blank_id,
    }
}

/// Joint output for `frames` frames: on every frame the token `token` and
/// the duration bin `dur` score highest.
fn joint(frames: usize, vocab_size: usize, bins: usize, token: usize, dur: usize) -> Vec<u32> {
    let mut out = Vec::new();
    for _ in 0..frames {
        for v in 0..vocab_size {
            out.push(if v == token { 2.0f32 } else { -1.0 }.to_bits());
        }
        for d in 0..bins {
            out.push(if d == dur { 1.5f32 } else { 0.0 }.to_bits());
        }
    }
    out
}

#[test]
fn all_blank_ends_after_every_frame() {
    let total = 17;
    let v = vocab(5, 4);
    let logits = joint(total, 5, 3, 4, 2);
    let mut dec = TdtDecoder::new(total, &v);
    let mut steps = 0;
    while dec.is_running() {
        dec.step(&logits, 8).unwrap();
        steps += 1;
        assert!(steps <= total);
    }
    assert_eq!(steps, total);
    assert_eq!(dec.frame_idx(), total);
    assert!(dec.into_tokens().is_empty());
}

#[test]
fn tokens_advance_by_predicted_duration() {
    let total = 10;
    let v = vocab(5, 4);
    let logits = joint(total, 5, 4, 1, 3);
    let mut dec = TdtDecoder::new(total, &v);
    assert_eq!(dec.previous_token(), 4);
    dec.step(&logits, 9).unwrap();
    assert_eq!(dec.frame_idx(), 3);
    assert_eq!(dec.previous_token(), 1);
    while dec.is_running() {
        dec.step(&logits, 9).unwrap();
    }
    assert_eq!(dec.into_tokens(), vec![1, 1, 1, 1]);
}

#[test]
fn zero_duration_counts_as_one() {
    let v = vocab(3, 0);
    let mut dec = TdtDecoder::new(2, &v);
    dec.advance(2, 0);
    assert_eq!(dec.frame_idx(), 1);
    dec.advance(2, 0);
    assert_eq!(dec.frame_idx(), 2);
    assert!(!dec.is_running());

    let mut dec = TdtDecoder::new(9, &v);
    let logits = joint(9, 3, 2, 2, 0);
    for k in 0..9 {
        dec.step(&logits, 5).unwrap();
        assert_eq!(dec.frame_idx(), k + 1);
    }
    assert_eq!(dec.into_tokens(), vec![2; 9]);
}

#[test]
fn duration_two_over_twenty_frames_emits_eleven() {
    let v = vocab(5, 4);
    let logits = joint(20, 5, 3, 1, 2);
    let mut dec = TdtDecoder::new(20, &v);
    let mut steps = 0;
    while dec.is_running() {
        dec.step(&logits, 8).unwrap();
        steps += 1;
    }
    assert_eq!(steps, 11);
    assert_eq!(dec.into_tokens(), vec![1; 11]);
}

#[test]
fn zero_duration_tokens_fill_every_frame() {
    let v = vocab(3, 0);
    let logits = joint(30, 3, 2, 2, 0);
    let mut dec = TdtDecoder::new(30, &v);
    while dec.is_running() {
        dec.step(&logits, 5).unwrap();
    }
    assert_eq!(dec.into_tokens(), vec![2; 30]);
}

#[test]
fn tenth_emission_on_a_frame_moves_on() {
    let v = vocab(3, 0);
    let mut dec = TdtDecoder::new(100, &v);
    dec.advance(0, 0);
    assert_eq!(dec.frame_idx(), 1);
    for _ in 0..9 {
        dec.advance(1, 5);
    }
    assert_eq!(dec.frame_idx(), 1 + 9 * 5);
    dec.advance(1, 5);
    assert_eq!(dec.frame_idx(), 1 + 9 * 5 + 1);
}

#[test]
fn token_cap_stops_decoding() {
    let v = vocab(3, 0);
    let mut dec = TdtDecoder::new(usize::MAX, &v);
    let mut steps = 0;
    while dec.is_running() {
        dec.advance(1, 0);
        steps += 1;
    }
    assert_eq!(steps, MAX_DECODED_TOKENS);
    assert_eq!(dec.decoded().len(), MAX_DECODED_TOKENS);
}

#[test]
fn step_rejects_short_or_narrow_output() {
    let v = vocab(5, 4);
    let mut dec = TdtDecoder::new(3, &v);
    let logits = joint(3, 5, 2, 1, 1);
    assert_eq!(dec.step(&logits, 4), Err(TensorError::BadShape));
    assert_eq!(dec.step(&logits[..6], 7), Err(TensorError::BadShape));
    assert_eq!(dec.frame_idx(), 0);
    assert_eq!(dec.step(&logits, 7), Ok(()));
    assert_eq!(dec.frame_idx(), 1);
    assert_eq!(dec.step(&logits[..13], 7), Err(TensorError::BadShape));
}

#[test]
fn joint_channels_reads_fourth_axis() {
    assert_eq!(joint_channels(&[1, 40, 1, 8198]), Ok(8198));
    assert_eq!(joint_channels(&[1, 40, 8198]), Err(TensorError::BadShape));
    assert_eq!(joint_channels(&[1, 40, 1, -1]), Err(TensorError::BadShape));
}

#[test]
fn canonical_features_keeps_channel_major() {
    let data: Vec<u32> = (0..256).collect();
    let (out, b, t) = canonical_features(&[1, 128, 2], data.clone()).unwrap();
    assert_eq!((b, t), (1, 2));
    assert_eq!(out, data);
}

#[test]
fn canonical_features_transposes_time_major() {
    let frames = 3;
    let data: Vec<u32> = (0..(frames * 128) as u32).collect();
    let (out, b, t) = canonical_features(&[1, frames as i64, 128], data.clone()).unwrap();
    assert_eq!((b, t), (1, frames));
    for f in 0..128 {
        for tt in 0..frames {
            assert_eq!(out[f * frames + tt], data[tt * 128 + f]);
        }
    }
}

#[test]
fn canonical_features_rejects_other_layouts() {
    assert_eq!(
        canonical_features(&[1, 3, 4], vec![0u8; 12]).unwrap_err(),
        TensorError::BadShape
    );
    assert_eq!(
        canonical_features(&[1, 128, 4], vec![0u8; 12]).unwrap_err(),
        TensorError::BadShape
    );
    assert_eq!(
        canonical_features(&[1, 128], vec![0u8; 128]).unwrap_err(),
        TensorError::BadShape
    );
    assert_eq!(
        canonical_features(&[-1, 128, 1], vec![0u8; 0]).unwrap_err(),
        TensorError::BadShape
    );
}

#[test]
fn transpose_with_batches() {
    let data: Vec<i32> = (0..2 * 3 * 2).collect();
    let out = transpose_time_major(&data, 2, 3, 2);
    assert_eq!(out, vec![0, 2, 4, 1, 3, 5, 6, 8, 10, 7, 9, 11]);
}

#[test]
fn input_roles_follow_names() {
    assert_eq!(feature_extractor_input("waveforms"), FeatureInput::Waveforms);
    assert_eq!(
        feature_extractor_input("waveforms_lens"),
        FeatureInput::WaveformLengths
    );
    assert_eq!(feature_extractor_input("lens"), FeatureInput::WaveformLengths);
    assert_eq!(feature_extractor_input("other"), FeatureInput::Unused);
    assert_eq!(encoder_input("audio_signal"), EncoderInput::Features);
    assert_eq!(encoder_input("length"), EncoderInput::Length);
}

#[test]
fn encoder_output_prefers_outputs() {
    let names = vec!["a".to_string(), "outputs".to_string(), "outputs".to_string()];
    assert_eq!(encoder_output_index(&names), Ok(1));
    let names = vec!["encoded".to_string(), "lengths".to_string()];
    assert_eq!(encoder_output_index(&names), Ok(0));
    assert_eq!(encoder_output_index(&vec![]), Err(TensorError::MissingOutput));
}
