use ai_media_cutter::transcript::{
    aligned_segments, batch_windows, chunk_result, long_audio_windows, stitch_chunks,
    BatchTranscriptionResult, ChunkWindow, TranscriptionSegment, CHUNK_SAMPLES,
};
use ai_media_cutter::vocab::VocabInfo;
use std::collections::HashMap;

fn vocab() -> VocabInfo {
    let mut id_to_token = HashMap::new();
    id_to_token.insert(0, " Hi".to_string());
    id_to_token.insert(1, "there".to_string());
    id_to_token.insert(2, "<blk>".to_string());
    VocabInfo {
        id_to_token,
        vocab_size: 3,
        blank_id: 2,
    }
}

fn seg(start: u64, end: u64, text: &str) -> TranscriptionSegment {
    TranscriptionSegment {
        start,
        end,
        text: text.to_string(),
    }
}

fn result(segs: Vec<TranscriptionSegment>) -> BatchTranscriptionResult {
    let text = segs
        .iter()
        .map(|s| s.text.as_str())
        .collect::<Vec<_>>()
        .join(" ");
    BatchTranscriptionResult {
        text,
        segments: segs,
    }
}

#[test]
fn long_audio_windows_overlap() {
    let w = long_audio_windows(900_000);
    assert_eq!(
        w,
        vec![
            ChunkWindow { start: 0, end: 480_000 },
            ChunkWindow { start: 432_000, end: 900_000 },
        ]
    );
    let w = long_audio_windows(1_344_000);
    assert_eq!(w.len(), 3);
    assert_eq!(w[2], ChunkWindow { start: 864_000, end: 1_344_000 });
    let w = long_audio_windows(1_344_001);
    assert_eq!(w.len(), 4);
    assert_eq!(w[2], ChunkWindow { start: 864_000, end: 1_344_000 });
    assert_eq!(w[3], ChunkWindow { start: 1_296_000, end: 1_344_001 });
    assert!(long_audio_windows(0).is_empty());
}

#[test]
fn short_audio_is_one_chunk_either_way() {
    for len in [1usize, 16_000, CHUNK_SAMPLES] {
        assert_eq!(batch_windows(len), long_audio_windows(len));
        assert_eq!(batch_windows(len), vec![ChunkWindow { start: 0, end: len }]);
    }
    assert_eq!(batch_windows(0), vec![ChunkWindow { start: 0, end: 0 }]);
    assert_eq!(batch_windows(CHUNK_SAMPLES + 1).len(), 2);
}

#[test]
fn short_audio_same_text_either_way() {
    let v = vocab();
    let len = 100_000;
    let single = chunk_result(&[0, 1, 2], &v, len);
    assert_eq!(single.text, "Hithere");
    let windows = long_audio_windows(len);
    let stitched = stitch_chunks(&windows, &vec![single.clone()]);
    assert_eq!(stitched.text, single.text);
    assert_eq!(stitched.segments.len(), 1);
    assert_eq!(stitched.segments[0].text, single.segments[0].text);
    assert_eq!(stitched.segments[0].start, 0);
    assert_eq!(stitched.segments[0].end, single.segments[0].end);
}

#[test]
fn chunk_result_spans_the_chunk() {
    let v = vocab();
    let r = chunk_result(&[0, 0], &v, 16_000);
    assert_eq!(r.text, "Hi Hi");
    assert_eq!(r.segments.len(), 1);
    assert_eq!(r.segments[0].start, 0);
    assert_eq!(r.segments[0].end, 1_000_000_000);
    assert_eq!(r.segments[0].text, "Hi Hi");
}

#[test]
fn stitching_offsets_second_chunk() {
    // second chunk starting 432 s in: a segment at 1.0 s lands at 433.0 s
    let windows = vec![
        ChunkWindow { start: 0, end: 480_000 },
        ChunkWindow { start: 432 * 16_000, end: 432 * 16_000 + 480_000 },
    ];
    let first = result(vec![seg(0, 30_000_000_000, "first")]);
    let second = result(vec![seg(1_000_000_000, 2_000_000_000, "second")]);
    let r = stitch_chunks(&windows, &vec![first, second]);
    assert_eq!(r.segments.len(), 2);
    assert_eq!(r.segments[0].start, 0);
    assert_eq!(r.segments[0].end, 30_000_000_000);
    assert_eq!(r.segments[1].start, 433_000_000_000);
    assert_eq!(r.segments[1].end, 434_000_000_000);
    assert_eq!(r.text, "first second");
}

#[test]
fn stitching_uses_window_starts() {
    // the second window of long audio starts one step, 27 s, in
    let windows = long_audio_windows(900_000);
    let first = result(vec![seg(0, 30_000_000_000, "first")]);
    let second = result(vec![seg(1_000_000_000, 2_000_000_000, "second")]);
    let r = stitch_chunks(&windows, &vec![first, second]);
    assert_eq!(r.segments[1].start, 28_000_000_000);
    assert_eq!(r.segments[1].end, 29_000_000_000);
}

#[test]
fn stitching_keeps_order_and_empty_texts() {
    let windows = vec![
        ChunkWindow { start: 0, end: 10 },
        ChunkWindow { start: 16_000, end: 32_000 },
    ];
    let a = result(vec![seg(0, 5, "a"), seg(5, 9, "")]);
    let b = result(vec![]);
    let c = stitch_chunks(&windows, &vec![a, b]);
    assert_eq!(c.segments.len(), 2);
    assert_eq!(c.text, "a ");
    let none = stitch_chunks(&[], &vec![]);
    assert_eq!(none.text, "");
    assert!(none.segments.is_empty());
}

#[test]
fn aligned_segments_format_times() {
    let r = result(vec![seg(0, 61_500_000_000, "hello"), seg(433_000_000_000, 434_000_000_000, "x")]);
    let a = aligned_segments(&r);
    assert_eq!(a.len(), 2);
    assert_eq!(a[0].start, "00:00.000");
    assert_eq!(a[0].end, "01:01.500");
    assert_eq!(a[0].speaker, "Local");
    assert_eq!(a[0].text, "hello");
    assert_eq!(a[1].start, "07:13.000");
}
