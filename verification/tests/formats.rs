use tubegrab::formats::{best_audio, video_options, FormatFacts, VideoPick, ZERO_KEY};

fn f(vcodec: &str, acodec: &str, height: Option<u64>, abr: Option<u64>, tbr: Option<u64>, size: bool) -> FormatFacts {
    FormatFacts {
        vcodec: Some(vcodec.to_string()),
        acodec: Some(acodec.to_string()),
        ext: Some("mp4".to_string()),
        height,
        abr,
        tbr,
        has_size: size,
    }
}

const K: u64 = ZERO_KEY;

#[test]
fn best_audio_takes_last_highest() {
    let fs = vec![
        f("none", "mp4a", None, Some(K + 5), None, true),
        f("avc1", "none", Some(720), None, None, true),
        f("none", "opus", None, Some(K + 9), None, false),
        f("none", "mp4a", None, Some(K + 9), None, true),
        f("none", "none", None, Some(K + 50), None, true),
        f("none", "opus", None, Some(K + 3), None, true),
    ];
    let p = best_audio(&fs);
    assert_eq!(p.abr_from, Some(3));
    assert_eq!(p.size_from, Some(3));
}

#[test]
fn best_audio_unknown_bitrates() {
    let fs = vec![
        f("none", "mp4a", None, None, None, true),
        f("none", "mp4a", None, None, None, false),
    ];
    let p = best_audio(&fs);
    assert_eq!(p.abr_from, None);
    assert_eq!(p.size_from, None);
    assert_eq!(best_audio(&vec![]).abr_from, None);
}

#[test]
fn video_options_prefer_h264_then_bitrate() {
    let mut storyboard = f("avc1", "none", Some(90), None, None, false);
    storyboard.ext = Some("mhtml".to_string());
    let fs = vec![
        f("vp9", "none", Some(1080), None, Some(K + 900), true),
        f("avc1.640028", "none", Some(1080), None, Some(K + 500), true),
        f("avc1.4d401f", "none", Some(720), None, Some(K + 300), true),
        f("avc1.4d401f", "none", Some(720), None, Some(K + 300), true),
        f("vp9", "none", Some(2160), None, None, true),
        f("none", "mp4a", Some(480), None, None, true),
        f("avc1", "none", Some(0), None, None, true),
        f("avc1", "none", Some(1 << 32), None, None, true),
        storyboard,
        f("avc1", "none", Some((1 << 32) + 360), None, None, true),
    ];
    let picks = video_options(&fs);
    assert_eq!(
        picks,
        vec![
            VideoPick { height: 2160, source: 4 },
            VideoPick { height: 1080, source: 1 },
            VideoPick { height: 720, source: 2 },
            VideoPick { height: 360, source: 9 },
        ]
    );
}

#[test]
fn best_audio_size_is_that_of_the_chosen_stream() {
    let fs = vec![
        f("none", "opus", None, Some(K + 50), None, true),
        f("none", "mp4a.40.2", None, Some(K + 130), None, false),
    ];
    let p = best_audio(&fs);
    assert_eq!(p.abr_from, Some(1));
    assert_eq!(p.size_from, None);
}
