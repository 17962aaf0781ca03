use ai_media_cutter::argmax::{argmax_index, logit_rank, NEG_INFINITY_BITS};
use ai_media_cutter::detok::tokens_to_text;
use ai_media_cutter::timestamp::format_timestamp;
use ai_media_cutter::vocab::{is_whitespace_char, VocabError, VocabInfo};
use std::collections::HashMap;

fn bits(xs: &[f32]) -> Vec<u32> {
    xs.iter().map(|x| x.to_bits()).collect()
}

fn vocab_of(pairs: &[(usize, &str)], blank_id: usize) -> VocabInfo {
    let mut id_to_token = HashMap::new();
    for (id, tok) in pairs {
        id_to_token.insert(*id, tok.to_string());
    }
    VocabInfo {
        vocab_size: id_to_token.len(),
        id_to_token,
        blank_id,
    }
}

#[test]
fn test_vocab_info() {
    let content = "hello 0\nworld 1\n<blk> 2\n";
    let vocab = VocabInfo::from_text(content).unwrap();

    assert_eq!(vocab.vocab_size, 3);
    assert_eq!(vocab.blank_id, 2);
    assert_eq!(vocab.token_of(0), Some("hello"));
    assert_eq!(vocab.token_of(1), Some("world"));
    assert_eq!(vocab.token_of(2), Some("<blk>"));
    assert_eq!(vocab.token_of(3), None);
}

#[test]
fn vocab_counts_valid_lines_and_finds_blank() {
    let content = "a 0\n\nonly_one_word\nb 1 extra words\n  c\t2  \r\n<blank> 3\nd 4";
    let vocab = VocabInfo::from_text(content).unwrap();
    assert_eq!(vocab.vocab_size, 5);
    assert_eq!(vocab.blank_id, 3);
    assert_eq!(vocab.token_of(2), Some("c"));
    assert_eq!(vocab.token_of(4), Some("d"));
}

#[test]
fn vocab_without_blank_fails() {
    assert_eq!(
        VocabInfo::from_text("a 0\nb 1\n").unwrap_err(),
        VocabError::NoBlankToken
    );
    assert_eq!(VocabInfo::from_text("").unwrap_err(), VocabError::NoBlankToken);
}

#[test]
fn vocab_rejects_malformed_ids() {
    assert_eq!(
        VocabInfo::from_text("a 0\nb x1\n<blk> 2\n").unwrap_err(),
        VocabError::BadTokenId { line: 2 }
    );
    assert_eq!(
        VocabInfo::from_text("<blk> -1\n").unwrap_err(),
        VocabError::BadTokenId { line: 1 }
    );
    assert_eq!(
        VocabInfo::from_text("<blk> +\n").unwrap_err(),
        VocabError::BadTokenId { line: 1 }
    );
    assert_eq!(
        VocabInfo::from_text("x 0\n<blk> 99999999999999999999999\n").unwrap_err(),
        VocabError::BadTokenId { line: 2 }
    );
}

#[test]
fn vocab_reads_ids_as_std_does() {
    let vocab = VocabInfo::from_text("<blk> +7\nmax 18446744073709551615\n").unwrap();
    assert_eq!(vocab.blank_id, 7);
    assert_eq!(vocab.token_of(usize::MAX), Some("max"));
}

#[test]
fn vocab_later_lines_win() {
    let vocab = VocabInfo::from_text("<blk> 1\na 0\nb 0\n<blank> 1\n").unwrap();
    assert_eq!(vocab.vocab_size, 2);
    assert_eq!(vocab.blank_id, 1);
    assert_eq!(vocab.token_of(0), Some("b"));
    assert_eq!(vocab.token_of(1), Some("<blank>"));
}

#[test]
fn vocab_rejects_two_blank_ids() {
    assert_eq!(
        VocabInfo::from_text("<blk> 1\na 0\nb 2\n<blank> 5\n").unwrap_err(),
        VocabError::ConflictingBlankId { line: 4 }
    );
    assert_eq!(
        VocabInfo::from_text("<blk> 1\n<blk> 2\n").unwrap_err(),
        VocabError::ConflictingBlankId { line: 2 }
    );
}

#[test]
fn whitespace_matches_std() {
    for u in 0u32..0x11_0000 {
        if let Some(c) = char::from_u32(u) {
            assert_eq!(is_whitespace_char(c), c.is_whitespace(), "{:?}", c);
        }
    }
}

#[test]
fn test_argmax_index() {
    let data = vec![0.1f32, 0.5, 0.2, 0.9, 0.3];
    let (idx, val) = argmax_index(&bits(&data));
    assert_eq!(idx, 3);
    assert_eq!(f32::from_bits(val), 0.9);
}

#[test]
fn argmax_takes_first_of_ties() {
    let data = vec![1.0f32, 3.0, -2.0, 3.0];
    assert_eq!(argmax_index(&bits(&data)).0, 1);
    let zeros = vec![-0.0f32, 0.0];
    assert_eq!(argmax_index(&bits(&zeros)).0, 0);
}

#[test]
fn argmax_orders_negatives_and_nan() {
    let data = vec![f32::NAN, -3.5, -0.25, -7.0, f32::NEG_INFINITY];
    assert_eq!(argmax_index(&bits(&data)).0, 2);
    let data = vec![-1.0f32, f32::INFINITY, f32::MAX];
    assert_eq!(argmax_index(&bits(&data)).0, 1);
}

#[test]
fn argmax_of_empty_is_zero_and_negative_infinity() {
    assert_eq!(argmax_index(&[]), (0, NEG_INFINITY_BITS));
    assert_eq!(f32::from_bits(NEG_INFINITY_BITS), f32::NEG_INFINITY);
}

#[test]
fn rank_follows_float_order() {
    let values = [
        f32::NEG_INFINITY,
        -1e30,
        -2.5,
        -1e-40,
        0.0,
        1e-40,
        0.5,
        1.0,
        3e38,
        f32::INFINITY,
    ];
    for w in values.windows(2) {
        assert!(logit_rank(w[0].to_bits()) < logit_rank(w[1].to_bits()));
    }
    assert_eq!(logit_rank((-0.0f32).to_bits()), logit_rank(0.0f32.to_bits()));
    assert!(logit_rank(f32::NAN.to_bits()) < logit_rank(f32::NEG_INFINITY.to_bits()));
}

#[test]
fn test_tokens_to_text() {
    let vocab = vocab_of(&[(0, " Hello"), (1, " World"), (2, "<blk>")], 2);
    let text = tokens_to_text(&[0, 1], &vocab);
    assert_eq!(text, "Hello World");
}

#[test]
fn only_control_tokens_give_empty_text() {
    let vocab = vocab_of(&[(0, "<blk>"), (1, "<pad>"), (2, "<unk>"), (3, "<x>")], 0);
    assert_eq!(tokens_to_text(&[0], &vocab), "");
    assert_eq!(tokens_to_text(&[0, 1, 2, 3, 0], &vocab), "");
    assert_eq!(tokens_to_text(&[], &vocab), "");
}

#[test]
fn continuations_concatenate() {
    let vocab = vocab_of(&[(0, "Hel"), (1, "lo"), (2, " wor"), (3, "ld"), (4, "<blk>")], 4);
    assert_eq!(tokens_to_text(&[0, 1], &vocab), "Hello");
    assert_eq!(tokens_to_text(&[0, 4, 1, 2, 3], &vocab), "Hello world");
}

#[test]
fn space_tokens_and_unknown_ids() {
    let vocab = vocab_of(&[(0, " a"), (1, " "), (2, " b"), (3, "c")], 9);
    assert_eq!(tokens_to_text(&[0, 1, 1, 2, 77, 3], &vocab), "a bc");
    assert_eq!(tokens_to_text(&[1, 3], &vocab), "c");
}

#[test]
fn test_format_timestamp() {
    assert_eq!(format_timestamp(0), "00:00.000");
    assert_eq!(format_timestamp(61_500_000_000), "01:01.500");
    assert_eq!(format_timestamp(3_600_000_000_000), "60:00.000");
    assert_eq!(format_timestamp(12_345_600_000), "00:12.346");
}

#[test]
fn timestamp_rounding_carries() {
    assert_eq!(format_timestamp(999_600_000), "00:01.000");
    assert_eq!(format_timestamp(59_999_500_000), "01:00.000");
    assert_eq!(format_timestamp(1_499_999), "00:00.001");
    assert_eq!(format_timestamp(6_000_000_000_000), "100:00.000");
}
