//! Long audio: splitting into overlapping chunks, the result of one chunk,
//! stitching chunk results into one transcript, and its presentation.
//!
//! Times are whole nanoseconds from the start of the audio.

use vstd::prelude::*;
use crate::detok::{detokenize, join_words, tokens_to_text};
use crate::text::{push_char, push_str};
use crate::timestamp::{format_timestamp, timestamp_text, NANOS_PER_SAMPLE};
use crate::vocab::VocabInfo;

verus! {

/// Samples in one chunk: 30 s at 16 kHz.
pub const CHUNK_SAMPLES: usize = 480_000;

/// Samples shared by consecutive chunks: 3 s at 16 kHz.
pub const CHUNK_OVERLAP: usize = 48_000;

/// Distance between the starts of consecutive chunks.
pub const CHUNK_STEP: usize = CHUNK_SAMPLES - CHUNK_OVERLAP;

/// Longest audio, in samples, whose times the pipeline represents.
pub const MAX_AUDIO_SAMPLES: u64 = 1_099_511_627_776;

/// The samples `start..end` of the audio.
#[derive(Clone, Copy, Debug, PartialEq, Eq, Structural)]
pub struct ChunkWindow {
    pub start: usize,
    pub end: usize,
}

/// Number of chunks that audio of `len` samples is split into.
pub open spec fn window_count(len: nat) -> nat
    decreases len,
{
    if len == 0 {
        0
    } else if len <= CHUNK_SAMPLES {
        1
    } else {
        1 + window_count((len - CHUNK_STEP) as nat)
    }
}

/// Chunk `k` of audio of `len` samples: it starts `k` steps in and runs for a
/// chunk's length, cut short at the end of the audio.
pub open spec fn window_at(len: nat, k: nat) -> (nat, nat) {
    let start = (k * CHUNK_STEP) as nat;
    (start, if start + CHUNK_SAMPLES <= len { (start + CHUNK_SAMPLES) as nat } else { len })
}

/// Nanoseconds from the start of the audio to sample `samples`.
pub open spec fn sample_time(samples: nat) -> nat {
    (samples * NANOS_PER_SAMPLE) as nat
}

/// A window as a pair of sample positions.
pub open spec fn window_view(w: ChunkWindow) -> (nat, nat) {
    (w.start as nat, w.end as nat)
}

/// Splits audio of `len` samples into overlapping chunks. Empty audio has
/// none.
pub fn long_audio_windows(len: usize) -> (r: Vec<ChunkWindow>)
    ensures
        r@.len() == window_count(len as nat),
        forall|k: int| 0 <= k < r@.len() ==> window_view(#[trigger] r@[k]) == window_at(len as nat, k as nat),
{
    let mut r: Vec<ChunkWindow> = Vec::new();
    if len == 0 {
        return r;
    }
    let mut pos: usize = 0;
    assert(CHUNK_STEP == 432_000);
    loop
        invariant_except_break
            pos < len,
            pos as nat == r@.len() * CHUNK_STEP,
            window_count(len as nat) == r@.len() + window_count((len - pos) as nat),
        invariant
            forall|k: int| 0 <= k < r@.len() ==> window_view(#[trigger] r@[k]) == window_at(len as nat, k as nat),
        ensures
            r@.len() == window_count(len as nat),
        decreases len - pos,
    {
        let end = if len - pos <= CHUNK_SAMPLES { len } else { pos + CHUNK_SAMPLES };
        r.push(ChunkWindow { start: pos, end });
        if end == len {
            assert(window_count((len - pos) as nat) == 1);
            break;
        }
        pos = pos + CHUNK_STEP;
        proof {
            assert(pos as nat == r@.len() * CHUNK_STEP) by (nonlinear_arith)
                requires
                    pos as nat == (r@.len() - 1) * CHUNK_STEP + CHUNK_STEP,
            ;
            assert((len - (pos - CHUNK_STEP)) - CHUNK_STEP == len - pos);
        }
    }
    r
}

/// The chunks that a transcription of `len` samples runs on: the long-audio
/// split above one chunk's length, else the whole audio as one chunk.
pub fn batch_windows(len: usize) -> (r: Vec<ChunkWindow>)
    ensures
        len > CHUNK_SAMPLES ==> r@.len() == window_count(len as nat) && forall|k: int|
            0 <= k < r@.len() ==> window_view(#[trigger] r@[k]) == window_at(len as nat, k as nat),
        len <= CHUNK_SAMPLES ==> r@ == seq![ChunkWindow { start: 0, end: len }],
{
    if len > CHUNK_SAMPLES {
        long_audio_windows(len)
    } else {
        let r = vec![ChunkWindow { start: 0, end: len }];
        assert(r@ =~= seq![ChunkWindow { start: 0, end: len }]);
        r
    }
}

/// A stretch of transcript with its start and end times.
#[derive(Clone, Debug)]
pub struct TranscriptionSegment {
    pub start: u64,
    pub end: u64,
    pub text: String,
}

/// A transcript: its segments and their texts joined.
#[derive(Clone, Debug)]
pub struct BatchTranscriptionResult {
    pub text: String,
    pub segments: Vec<TranscriptionSegment>,
}

/// A segment as (start, end, text).
pub open spec fn segment_view(s: TranscriptionSegment) -> (nat, nat, Seq<char>) {
    (s.start as nat, s.end as nat, s.text@)
}

/// The views of `segs`.
pub open spec fn segments_view(segs: Seq<TranscriptionSegment>) -> Seq<(nat, nat, Seq<char>)> {
    Seq::new(segs.len(), |i: int| segment_view(segs[i]))
}

/// The result of transcribing one chunk of `samples` samples into the
/// tokens `tokens`: one segment over the whole chunk, holding their text.
pub fn chunk_result(tokens: &[usize], vocab: &VocabInfo, samples: usize) -> (r: BatchTranscriptionResult)
    requires
        samples as u64 <= MAX_AUDIO_SAMPLES,
    ensures
        r.text@ == detokenize(tokens@, vocab.tokens()),
        segments_view(r.segments@) == seq![(0nat, sample_time(samples as nat), r.text@)],
{
    let text = tokens_to_text(tokens, vocab);
    let segment = TranscriptionSegment {
        start: 0,
        end: samples as u64 * NANOS_PER_SAMPLE,
        text: text.clone(),
    };
    let segments = vec![segment];
    let r = BatchTranscriptionResult { text, segments };
    assert(segments_view(r.segments@) =~= seq![(0nat, sample_time(samples as nat), r.text@)]);
    r
}

/// `segs` shifted later by `offset` nanoseconds.
pub open spec fn shifted(segs: Seq<(nat, nat, Seq<char>)>, offset: nat) -> Seq<(nat, nat, Seq<char>)> {
    Seq::new(segs.len(), |i: int| (segs[i].0 + offset, segs[i].1 + offset, segs[i].2))
}

/// The segments of chunk results `results`, each shifted by the start of its
/// window in `windows`, in chunk order.
pub open spec fn stitched(windows: Seq<ChunkWindow>, results: Seq<BatchTranscriptionResult>) -> Seq<
    (nat, nat, Seq<char>),
>
    decreases windows.len(),
{
    if windows.len() == 0 || results.len() == 0 {
        Seq::empty()
    } else {
        stitched(windows.drop_last(), results.drop_last()) + shifted(
            segments_view(results.last().segments@),
            sample_time(windows.last().start as nat),
        )
    }
}

/// The texts of `segs`.
pub open spec fn texts(segs: Seq<(nat, nat, Seq<char>)>) -> Seq<Seq<char>> {
    Seq::new(segs.len(), |i: int| segs[i].2)
}

/// Whether every shifted time of the chunk results fits in 64 bits.
pub open spec fn times_fit(windows: Seq<ChunkWindow>, results: Seq<BatchTranscriptionResult>) -> bool {
    &&& forall|k: int| 0 <= k < windows.len() ==> (#[trigger] windows[k]).start <= MAX_AUDIO_SAMPLES
    &&& forall|k: int, i: int|
        0 <= k < windows.len() && k < results.len() && 0 <= i < results[k].segments@.len() ==> {
            let off = sample_time(windows[k].start as nat);
            let seg = #[trigger] results[k].segments@[i];
            seg.start + off <= u64::MAX && seg.end + off <= u64::MAX
        }
}

/// The shifted times always fit for audio within [`MAX_AUDIO_SAMPLES`]:
/// when every chunk starts within the limit and every segment time is at
/// most the time of the limit, as for windows and chunk results of such
/// audio, stitching has what it requires.
pub proof fn lemma_times_fit_within_limit(windows: Seq<ChunkWindow>, results: Seq<BatchTranscriptionResult>)
    requires
        forall|k: int| 0 <= k < windows.len() ==> (#[trigger] windows[k]).start <= MAX_AUDIO_SAMPLES,
        forall|k: int, i: int|
            0 <= k < results.len() && 0 <= i < results[k].segments@.len() ==> {
                let seg = #[trigger] results[k].segments@[i];
                seg.start <= sample_time(MAX_AUDIO_SAMPLES as nat) && seg.end <= sample_time(
                    MAX_AUDIO_SAMPLES as nat,
                )
            },
    ensures
        times_fit(windows, results),
{
    assert forall|k: int, i: int|
        0 <= k < windows.len() && k < results.len() && 0 <= i < results[k].segments@.len() implies {
            let off = sample_time(windows[k].start as nat);
            let seg = #[trigger] results[k].segments@[i];
            seg.start + off <= u64::MAX && seg.end + off <= u64::MAX
        } by {
        let st = windows[k].start as nat;
        assert(st <= MAX_AUDIO_SAMPLES);
        assert(st * NANOS_PER_SAMPLE <= MAX_AUDIO_SAMPLES * NANOS_PER_SAMPLE) by (nonlinear_arith)
            requires
                st <= MAX_AUDIO_SAMPLES,
        ;
        let seg = results[k].segments@[i];
        assert(seg.start <= sample_time(MAX_AUDIO_SAMPLES as nat));
    }
}

/// Combines the results of the chunks `windows` into one transcript: each
/// chunk's segments shifted by the chunk's start, in chunk order, and the
/// segment texts joined with spaces.
pub fn stitch_chunks(windows: &[ChunkWindow], results: &Vec<BatchTranscriptionResult>) -> (r: BatchTranscriptionResult)
    requires
        windows@.len() == results@.len(),
        times_fit(windows@, results@),
    ensures
        segments_view(r.segments@) == stitched(windows@, results@),
        r.text@ == join_words(texts(stitched(windows@, results@))),
{
    let mut segments: Vec<TranscriptionSegment> = Vec::new();
    let mut k: usize = 0;
    while k < windows.len()
        invariant
            k <= windows@.len(),
            windows@.len() == results@.len(),
            times_fit(windows@, results@),
            segments_view(segments@) == stitched(windows@.subrange(0, k as int), results@.subrange(0, k as int)),
        decreases windows@.len() - k,
    {
        let ghost before = segments_view(segments@);
        let off: u64 = windows[k].start as u64 * NANOS_PER_SAMPLE;
        let chunk = &results[k];
        let mut i: usize = 0;
        while i < chunk.segments.len()
            invariant
                k < windows@.len(),
                windows@.len() == results@.len(),
                times_fit(windows@, results@),
                *chunk == results@[k as int],
                off == sample_time(windows@[k as int].start as nat),
                i <= chunk.segments@.len(),
                segments_view(segments@) == before + shifted(segments_view(chunk.segments@), off as nat).subrange(0, i as int),
            decreases chunk.segments@.len() - i,
        {
            let seg = &chunk.segments[i];
            assert(seg.start + off <= u64::MAX && seg.end + off <= u64::MAX);
            let ghost old_view = segments_view(segments@);
            let text = seg.text.clone();
            segments.push(TranscriptionSegment { start: seg.start + off, end: seg.end + off, text });
            proof {
                let sh = shifted(segments_view(chunk.segments@), off as nat);
                assert(segments_view(segments@) =~= old_view.push(sh[i as int]));
                assert(sh.subrange(0, i + 1) =~= sh.subrange(0, i as int).push(sh[i as int]));
            }
            i += 1;
            assert(segments_view(segments@) =~= before + shifted(segments_view(chunk.segments@), off as nat).subrange(0, i as int));
        }
        proof {
            let ws = windows@.subrange(0, k + 1);
            let rs = results@.subrange(0, k + 1);
            assert(ws.drop_last() =~= windows@.subrange(0, k as int));
            assert(rs.drop_last() =~= results@.subrange(0, k as int));
            assert(shifted(segments_view(chunk.segments@), off as nat).subrange(0, i as int)
                =~= shifted(segments_view(chunk.segments@), off as nat));
        }
        k += 1;
    }
    assert(windows@.subrange(0, k as int) =~= windows@);
    assert(results@.subrange(0, k as int) =~= results@);
    let ghost all = segments_view(segments@);
    let mut text = String::new();
    let mut i: usize = 0;
    while i < segments.len()
        invariant
            i <= segments@.len(),
            all == segments_view(segments@),
            text@ == join_words(texts(all).subrange(0, i as int)),
        decreases segments@.len() - i,
    {
        let ghost prefix = texts(all).subrange(0, i + 1);
        assert(prefix.drop_last() =~= texts(all).subrange(0, i as int));
        if i > 0 {
            push_char(&mut text, ' ');
        }
        push_str(&mut text, segments[i].text.as_str());
        i += 1;
        assert(text@ =~= join_words(prefix));
    }
    assert(texts(all).subrange(0, i as int) =~= texts(all));
    BatchTranscriptionResult { text, segments }
}

/// Audio no longer than one chunk gives the same transcript either way: the
/// long-audio split yields the single chunk that short audio runs on, and
/// stitching the result of that one chunk keeps its segments and text.
pub proof fn lemma_short_audio_one_chunk(len: nat, result: BatchTranscriptionResult)
    requires
        0 < len <= CHUNK_SAMPLES,
        result.segments@.len() == 1,
        result.segments@[0].text@ == result.text@,
    ensures
        window_count(len) == 1,
        window_at(len, 0) == (0nat, len),
        stitched(seq![ChunkWindow { start: 0, end: len as usize }], seq![result]) == segments_view(
            result.segments@,
        ),
        join_words(
            texts(stitched(seq![ChunkWindow { start: 0, end: len as usize }], seq![result])),
        ) == result.text@,
{
    let ws = seq![ChunkWindow { start: 0, end: len as usize }];
    let rs = seq![result];
    assert(ws.drop_last() =~= Seq::<ChunkWindow>::empty());
    assert(rs.drop_last() =~= Seq::<BatchTranscriptionResult>::empty());
    let segs = segments_view(result.segments@);
    assert(ws.last().start == 0);
    assert(sample_time(0) == 0);
    assert(shifted(segs, 0) =~= segs);
    assert(stitched(ws.drop_last(), rs.drop_last()) =~= Seq::<(nat, nat, Seq<char>)>::empty());
    assert(stitched(ws, rs) =~= segs);
    assert(texts(segs).len() == 1);
}

/// A transcript line as presented: `MM:SS.mmm` times and a speaker label.
#[derive(Clone, Debug)]
pub struct AlignedSegment {
    pub start: String,
    pub end: String,
    pub speaker: String,
    pub text: String,
}

/// Presents the segments of `result`, attributed to the local model.
pub fn aligned_segments(result: &BatchTranscriptionResult) -> (r: Vec<AlignedSegment>)
    ensures
        r@.len() == result.segments@.len(),
        forall|i: int|
            0 <= i < r@.len() ==> {
                let seg = result.segments@[i];
                &&& (#[trigger] r@[i]).start@ == timestamp_text(seg.start as nat)
                &&& r@[i].end@ == timestamp_text(seg.end as nat)
                &&& r@[i].speaker@ == "Local"@
                &&& r@[i].text@ == seg.text@
            },
{
    let mut r: Vec<AlignedSegment> = Vec::new();
    let mut i: usize = 0;
    while i < result.segments.len()
        invariant
            i <= result.segments@.len(),
            r@.len() == i,
            forall|j: int|
                0 <= j < i ==> {
                    let seg = result.segments@[j];
                    &&& (#[trigger] r@[j]).start@ == timestamp_text(seg.start as nat)
                    &&& r@[j].end@ == timestamp_text(seg.end as nat)
                    &&& r@[j].speaker@ == "Local"@
                    &&& r@[j].text@ == seg.text@
                },
        decreases result.segments@.len() - i,
    {
        let seg = &result.segments[i];
        r.push(
            AlignedSegment {
                start: format_timestamp(seg.start),
                end: format_timestamp(seg.end),
                speaker: String::from_str("Local"),
                text: seg.text.clone(),
            },
        );
        i += 1;
    }
    r
}

} // verus!
