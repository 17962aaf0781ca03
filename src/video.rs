//! Clip descriptions and the texts handed to the external video cutter: the
//! trim-and-concatenate filter graph and the output file names.

use vstd::prelude::*;
use crate::text::{decimal, padded_decimal, push_char, push_decimal, push_padded_decimal, push_str};

verus! {

/// A time range of the source media, as timestamp strings understood by the
/// cutter (for example `00:10`).
#[derive(Clone, Debug)]
pub struct Segment {
    pub start: String,
    pub end: String,
}

/// One line of a transcript.
#[derive(Clone, Debug)]
pub struct TranscriptSegment {
    pub start: String,
    pub end: String,
    pub speaker: String,
    pub text: String,
}

/// A clip to export: one or more source ranges joined in order, with an
/// optional title and the reason it was proposed.
#[derive(Clone, Debug)]
pub struct ClipSegment {
    pub segments: Vec<Segment>,
    pub label: Option<String>,
    pub reason: Option<String>,
}

/// The filter that trims the video and audio streams of segment `i`.
pub open spec fn trim_filters(i: nat, seg: Segment) -> Seq<char> {
    "[0:v]trim=start="@ + seg.start@ + ":end="@ + seg.end@ + ",setpts=PTS-STARTPTS[v"@
        + decimal(i) + "];"@ + "[0:a]atrim=start="@ + seg.start@ + ":end="@ + seg.end@
        + ",asetpts=PTS-STARTPTS[a"@ + decimal(i) + "];"@
}

/// The trim filters of all of `segs`, in order.
pub open spec fn all_trim_filters(segs: Seq<Segment>) -> Seq<char>
    decreases segs.len(),
{
    if segs.len() == 0 {
        Seq::empty()
    } else {
        all_trim_filters(segs.drop_last()) + trim_filters(
            (segs.len() - 1) as nat,
            segs.last(),
        )
    }
}

/// The stream labels `[v0][a0][v1][a1]...` of the first `n` segments.
pub open spec fn stream_labels(n: nat) -> Seq<char>
    decreases n,
{
    if n == 0 {
        Seq::empty()
    } else {
        stream_labels((n - 1) as nat) + "[v"@ + decimal((n - 1) as nat) + "][a"@ + decimal(
            (n - 1) as nat,
        ) + "]"@
    }
}

/// The whole filter graph for `segs`: every trim, then the concatenation of
/// all trimmed streams into the outputs `[v]` and `[a]`.
pub open spec fn filter_graph(segs: Seq<Segment>) -> Seq<char> {
    all_trim_filters(segs) + stream_labels(segs.len()) + "concat=n="@ + decimal(segs.len())
        + ":v=1:a=1[v][a]"@
}

/// Builds the filter graph that cuts `segments` out of one input and joins
/// them, together with the list of stream labels it concatenates.
pub fn build_filter_complex(segments: &[Segment]) -> (r: (String, String))
    ensures
        r.0@ == filter_graph(segments@),
        r.1@ == stream_labels(segments@.len()),
{
    let mut filter_complex = String::new();
    let mut inputs = String::new();
    let mut i: usize = 0;
    while i < segments.len()
        invariant
            i <= segments@.len(),
            filter_complex@ == all_trim_filters(segments@.subrange(0, i as int)),
            inputs@ == stream_labels(i as nat),
        decreases segments@.len() - i,
    {
        let seg = &segments[i];
        let ghost before = filter_complex@;
        push_str(&mut filter_complex, "[0:v]trim=start=");
        push_str(&mut filter_complex, seg.start.as_str());
        push_str(&mut filter_complex, ":end=");
        push_str(&mut filter_complex, seg.end.as_str());
        push_str(&mut filter_complex, ",setpts=PTS-STARTPTS[v");
        push_decimal(&mut filter_complex, i as u64);
        push_str(&mut filter_complex, "];");
        push_str(&mut filter_complex, "[0:a]atrim=start=");
        push_str(&mut filter_complex, seg.start.as_str());
        push_str(&mut filter_complex, ":end=");
        push_str(&mut filter_complex, seg.end.as_str());
        push_str(&mut filter_complex, ",asetpts=PTS-STARTPTS[a");
        push_decimal(&mut filter_complex, i as u64);
        push_str(&mut filter_complex, "];");
        assert(filter_complex@ =~= before + trim_filters(i as nat, *seg));

        push_str(&mut inputs, "[v");
        push_decimal(&mut inputs, i as u64);
        push_str(&mut inputs, "][a");
        push_decimal(&mut inputs, i as u64);
        push_str(&mut inputs, "]");

        assert(segments@.subrange(0, i + 1).drop_last() =~= segments@.subrange(0, i as int));
        i += 1;
        assert(inputs@ =~= stream_labels(i as nat));
    }
    assert(segments@.subrange(0, i as int) =~= segments@);
    push_str(&mut filter_complex, inputs.as_str());
    push_str(&mut filter_complex, "concat=n=");
    push_decimal(&mut filter_complex, segments.len() as u64);
    push_str(&mut filter_complex, ":v=1:a=1[v][a]");
    assert(filter_complex@ =~= filter_graph(segments@));
    (filter_complex, inputs)
}

/// Whether `c` is alphanumeric in the sense of `char::is_alphanumeric`.
pub uninterp spec fn alphanumeric(c: char) -> bool;

/// Relies on `char::is_alphanumeric`: whether the character is alphabetic or
/// numeric in Unicode's sense.
#[verifier::external_body]
fn is_alphanumeric(c: char) -> (r: bool)
    ensures
        r == alphanumeric(c),
{
    c.is_alphanumeric()
}

/// Characters that a clip title keeps in a file name.
pub open spec fn kept_in_file_name(c: char) -> bool {
    alphanumeric(c) || c == '-' || c == '_'
}

/// `label` with every character that a file name does not keep removed.
pub open spec fn clean_label(label: Seq<char>) -> Seq<char>
    decreases label.len(),
{
    if label.len() == 0 {
        Seq::empty()
    } else if kept_in_file_name(label.last()) {
        clean_label(label.drop_last()).push(label.last())
    } else {
        clean_label(label.drop_last())
    }
}

/// File name of the clip at position `i`: `clip_NNN.mp4` with the 1-based
/// position in three or more digits, and `_<title>` before the extension when
/// the cleaned title is not empty.
pub open spec fn clip_file_name(i: nat, label: Option<Seq<char>>) -> Seq<char> {
    let suffix = match label {
        Some(l) => clean_label(l),
        None => Seq::empty(),
    };
    if suffix.len() == 0 {
        "clip_"@ + padded_decimal(i + 1, 3) + ".mp4"@
    } else {
        "clip_"@ + padded_decimal(i + 1, 3) + "_"@ + suffix + ".mp4"@
    }
}

/// The view of an optional label.
pub open spec fn label_view(label: Option<String>) -> Option<Seq<char>> {
    match label {
        Some(l) => Some(l@),
        None => None,
    }
}

/// Builds the output file name of the clip at position `i`.
pub fn build_clip_output_filename(i: usize, segment: &ClipSegment) -> (r: String)
    requires
        i < usize::MAX,
    ensures
        r@ == clip_file_name(i as nat, label_view(segment.label)),
{
    let mut suffix = String::new();
    match &segment.label {
        Some(l) => {
            let chars = crate::text::chars_of(l.as_str());
            let mut k: usize = 0;
            while k < chars.len()
                invariant
                    k <= chars@.len(),
                    chars@ == l@,
                    suffix@ == clean_label(chars@.subrange(0, k as int)),
                decreases chars@.len() - k,
            {
                let c = chars[k];
                assert(chars@.subrange(0, k + 1).drop_last() =~= chars@.subrange(0, k as int));
                if is_alphanumeric(c) || c == '-' || c == '_' {
                    push_char(&mut suffix, c);
                }
                k += 1;
            }
            assert(chars@.subrange(0, k as int) =~= chars@);
        },
        None => {},
    }
    let mut name = String::new();
    push_str(&mut name, "clip_");
    push_padded_decimal(&mut name, (i + 1) as u64, 3);
    if !suffix.as_str().is_empty() {
        push_char(&mut name, '_');
        push_str(&mut name, suffix.as_str());
    }
    push_str(&mut name, ".mp4");
    proof {
        reveal_strlit("_");
    }
    assert(name@ =~= clip_file_name(i as nat, label_view(segment.label)));
    name
}

} // verus!
