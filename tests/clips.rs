use ai_media_cutter::video::{
    build_clip_output_filename, build_filter_complex, ClipSegment, Segment, TranscriptSegment,
};

#[test]
fn test_build_filter_complex() {
    let segments = vec![
        Segment {
            start: "00:00".to_string(),
            end: "00:10".to_string(),
        },
        Segment {
            start: "00:20".to_string(),
            end: "00:30".to_string(),
        },
    ];

    let (filter, inputs) = build_filter_complex(&segments);

    assert!(filter.contains("[0:v]trim=start=00:00:end=00:10,setpts=PTS-STARTPTS[v0];"));
    assert!(filter.contains("[0:a]atrim=start=00:00:end=00:10,asetpts=PTS-STARTPTS[a0];"));
    assert!(filter.contains("[0:v]trim=start=00:20:end=00:30,setpts=PTS-STARTPTS[v1];"));
    assert!(filter.contains("[0:a]atrim=start=00:20:end=00:30,asetpts=PTS-STARTPTS[a1];"));
    assert!(filter.contains("concat=n=2:v=1:a=1[v][a]"));
    assert_eq!(inputs, "[v0][a0][v1][a1]");
}

#[test]
fn filter_complex_exact_text() {
    let segments = vec![Segment {
        start: "1".to_string(),
        end: "2".to_string(),
    }];
    let (filter, inputs) = build_filter_complex(&segments);
    assert_eq!(
        filter,
        "[0:v]trim=start=1:end=2,setpts=PTS-STARTPTS[v0];[0:a]atrim=start=1:end=2,asetpts=PTS-STARTPTS[a0];[v0][a0]concat=n=1:v=1:a=1[v][a]"
    );
    assert_eq!(inputs, "[v0][a0]");
    let (filter, inputs) = build_filter_complex(&[]);
    assert_eq!(filter, "concat=n=0:v=1:a=1[v][a]");
    assert_eq!(inputs, "");
}

#[test]
fn filter_complex_counts_past_ten() {
    let segments: Vec<Segment> = (0..12)
        .map(|i| Segment {
            start: format!("{}", i),
            end: format!("{}", i + 1),
        })
        .collect();
    let (filter, inputs) = build_filter_complex(&segments);
    assert!(filter.contains("[0:a]atrim=start=11:end=12,asetpts=PTS-STARTPTS[a11];"));
    assert!(filter.ends_with("[v11][a11]concat=n=12:v=1:a=1[v][a]"));
    assert!(inputs.starts_with("[v0][a0][v1][a1]"));
}

fn clip(label: Option<&str>) -> ClipSegment {
    ClipSegment {
        segments: vec![Segment {
            start: "0".into(),
            end: "10".into(),
        }],
        label: label.map(|l| l.to_string()),
        reason: None,
    }
}

#[test]
fn test_build_clip_output_filename() {
    let s1 = clip(None);
    assert_eq!(build_clip_output_filename(0, &s1), "clip_001.mp4");

    let s2 = clip(Some("My Clip"));
    assert_eq!(build_clip_output_filename(1, &s2), "clip_002_MyClip.mp4");

    let s3 = clip(Some("Clip/With\\BadChars!"));
    assert_eq!(
        build_clip_output_filename(2, &s3),
        "clip_003_ClipWithBadChars.mp4"
    );
}

#[test]
fn clip_filename_keeps_dashes_digits_and_letters() {
    assert_eq!(
        build_clip_output_filename(9, &clip(Some("a-b_c 42 Ünï"))),
        "clip_010_a-b_c42Ünï.mp4"
    );
    assert_eq!(build_clip_output_filename(999, &clip(Some("!!!"))), "clip_1000.mp4");
    assert_eq!(build_clip_output_filename(41, &clip(Some(""))), "clip_042.mp4");
}

#[test]
fn transcript_segment_holds_fields() {
    let t = TranscriptSegment {
        start: "00:00".into(),
        end: "00:05".into(),
        speaker: "Speaker 1".into(),
        text: "Hello world".into(),
    };
    let c = t.clone();
    assert_eq!(c.speaker, "Speaker 1");
    assert_eq!(c.text, "Hello world");
}
