use tubegrab::settings::{load_settings, Settings};

#[test]
fn defaults() {
    let s = Settings::default();
    assert_eq!(s.download_dir, "");
    assert_eq!(s.concurrency, 2);
    assert_eq!(s.filename_template, "%(title)s.%(ext)s");
    assert_eq!(s.default_format, "mp4-1080");
}

#[test]
fn loading_fills_gaps() {
    let s = load_settings(None, "/home/u/Downloads/TubeGrab");
    assert_eq!(s.download_dir, "/home/u/Downloads/TubeGrab");
    assert_eq!(s.concurrency, 2);
    let stored = Settings {
        download_dir: "/data".to_string(),
        concurrency: 0,
        filename_template: "%(id)s.%(ext)s".to_string(),
        default_format: "mp3".to_string(),
    };
    let s = load_settings(Some(stored), "/fallback");
    assert_eq!(s.download_dir, "/data");
    assert_eq!(s.concurrency, 1);
    assert_eq!(s.filename_template, "%(id)s.%(ext)s");
    assert_eq!(s.default_format, "mp3");
    let again = load_settings(Some(s), "/fallback");
    assert_eq!(again.download_dir, "/data");
    assert_eq!(again.concurrency, 1);
}
