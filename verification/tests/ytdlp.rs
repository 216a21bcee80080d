use tubegrab::download::{ProgressEvent, TaskStatus};
use tubegrab::error::ApiError;
use tubegrab::ytdlp::{
    download_args, download_result, filepath_line, format_args, format_height, progress_event,
    push_stderr_line, should_emit,
};

#[test]
fn audio_format_args() {
    assert_eq!(format_args("mp3"), vec!["-f", "ba", "-x", "--audio-format", "mp3", "--audio-quality", "0"]);
    assert_eq!(format_args("m4a"), vec!["-f", "ba[ext=m4a]/ba", "-x", "--audio-format", "m4a"]);
}

#[test]
fn video_format_args_1080() {
    assert_eq!(
        format_args("mp4-1080"),
        vec![
            "-f",
            "bv*[height=1080][vcodec^=avc1]+ba[ext=m4a]/bv*[height=1080]+ba[ext=m4a]/bv*[height<=1080][vcodec^=avc1]+ba[ext=m4a]/bv*[height<=1080]+ba[ext=m4a]/b[height<=1080]",
            "--merge-output-format",
            "mp4",
        ]
    );
}

#[test]
fn video_format_args_any_height() {
    assert_eq!(
        format_args("mp4-2160"),
        vec![
            "-f",
            "bv*[height=2160][vcodec^=avc1]+ba[ext=m4a]/bv*[height=2160]+ba[ext=m4a]/bv*[height<=2160][vcodec^=avc1]+ba[ext=m4a]/bv*[height<=2160]+ba[ext=m4a]/b[height<=2160]",
            "--merge-output-format",
            "mp4",
        ]
    );
    assert_eq!(format_height("mp4-720"), 720);
    assert_eq!(format_height("mp4-+480"), 480);
    assert_eq!(format_height("mp4-abc"), 1080);
    assert_eq!(format_height("webm"), 1080);
    assert_eq!(format_height("mp4-99999999999"), 1080);
    assert_eq!(format_args("mp4-x")[1], format_args("mp4-1080")[1]);
}

#[test]
fn video_height_round_trip() {
    for h in [1u32, 144, 480, 1080, 4320, u32::MAX] {
        assert_eq!(format_height(&format!("mp4-{h}")), h);
    }
}

#[test]
fn full_download_arguments() {
    let args = download_args("m4a", "/ff/ffmpeg", "/out/%(title)s.%(ext)s", "https://u");
    assert_eq!(
        args,
        vec![
            "-f", "ba[ext=m4a]/ba", "-x", "--audio-format", "m4a",
            "--no-playlist", "-c", "--newline", "--progress",
            "--progress-template", "%(progress)j", "--no-simulate", "--print",
            "after_move:FILEPATH::%(filepath)s", "--ffmpeg-location", "/ff/ffmpeg",
            "-o", "/out/%(title)s.%(ext)s", "--", "https://u",
        ]
    );
}

#[test]
fn filepath_lines() {
    assert_eq!(filepath_line("FILEPATH::/a/b c.mp4 \r").as_deref(), Some("/a/b c.mp4"));
    assert_eq!(filepath_line("FILEPATH::").as_deref(), Some(""));
    assert_eq!(filepath_line("{\"status\": \"downloading\"}"), None);
    assert_eq!(filepath_line(" FILEPATH::x"), None);
}

#[test]
fn progress_status_words() {
    assert_eq!(progress_event(&Some("downloading".to_string())), ProgressEvent::Downloading);
    assert_eq!(progress_event(&Some("finished".to_string())), ProgressEvent::Finished);
    assert_eq!(progress_event(&Some("error".to_string())), ProgressEvent::Other);
    assert_eq!(progress_event(&None), ProgressEvent::Other);
}

#[test]
fn emit_throttling() {
    assert!(!should_emit(199, TaskStatus::Downloading));
    assert!(should_emit(200, TaskStatus::Downloading));
    assert!(should_emit(0, TaskStatus::Merging));
}

#[test]
fn stderr_buffer_keeps_last_forty() {
    let mut v: Vec<String> = Vec::new();
    for i in 0..45 {
        push_stderr_line(&mut v, format!("line {i}"));
        assert!(v.len() <= 40);
        assert_eq!(v.last().unwrap(), &format!("line {i}"));
    }
    assert_eq!(v.len(), 40);
    assert_eq!(v[0], "line 5");
}

#[test]
fn process_outcomes() {
    assert!(matches!(download_result(true, false, &vec![], None), Ok(None)));
    match download_result(false, true, &vec![], Some("/f.mp4".to_string())) {
        Ok(Some(p)) => assert_eq!(p, "/f.mp4"),
        _ => panic!("expected a path"),
    }
    match download_result(false, true, &vec![], None) {
        Ok(Some(p)) => assert_eq!(p, ""),
        _ => panic!("expected an empty path"),
    }
    let lines = vec!["WARNING: x".to_string(), "ERROR: Unsupported URL: y".to_string()];
    let e: ApiError = download_result(false, false, &lines, None).err().unwrap();
    assert_eq!(e.kind, "invalid_url");
}
