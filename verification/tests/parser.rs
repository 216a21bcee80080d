use tubegrab::parser::{
    build_playlist, playlist_query_args, validate_url, video_query_args, video_title, RawPlaylistEntry,
};

#[test]
fn validate_url_accepts_and_trims() {
    assert_eq!(validate_url("  https://youtu.be/abc \n").unwrap(), "https://youtu.be/abc");
    assert_eq!(validate_url("http://x").unwrap(), "http://x");
}

#[test]
fn validate_url_errors() {
    let e = validate_url("   ").unwrap_err();
    assert_eq!(e.kind, "invalid_url");
    assert_eq!(e.message, "请输入链接");
    let e = validate_url("ftp://x").unwrap_err();
    assert_eq!(e.message, "链接必须以 http:// 或 https:// 开头");
    let e = validate_url("https://a b").unwrap_err();
    assert_eq!(e.message, "链接包含非法字符");
    let e = validate_url("https://a\u{7f}b").unwrap_err();
    assert_eq!(e.message, "链接包含非法字符");
    assert!(validate_url("HTTPS://x").is_err());
}

#[test]
fn validate_url_is_idempotent() {
    for u in [" https://a/b ", "http://c", "https://d?e=f"] {
        let once = validate_url(u).unwrap();
        assert_eq!(validate_url(&once).unwrap(), once);
    }
}

#[test]
fn query_arguments() {
    assert_eq!(video_query_args("u"), vec!["-J", "--no-playlist", "--no-warnings", "u"]);
    assert_eq!(playlist_query_args("u"), vec!["-J", "--flat-playlist", "--no-warnings", "u"]);
}

fn entry(url: Option<&str>, id: Option<&str>, title: Option<&str>) -> RawPlaylistEntry {
    RawPlaylistEntry {
        url: url.map(String::from),
        id: id.map(String::from),
        title: title.map(String::from),
        thumbnail: None,
    }
}

#[test]
fn playlist_entries_with_links() {
    let plan = build_playlist(
        Some("My list".to_string()),
        Some(vec![
            entry(Some("https://a"), Some("ignored"), Some("A")),
            entry(None, Some("xyz"), None),
            entry(None, None, Some("no link")),
        ]),
    )
    .ok()
    .unwrap();
    assert_eq!(plan.title, "My list");
    assert_eq!(plan.items.len(), 2);
    assert_eq!(plan.items[0].url, "https://a");
    assert_eq!(plan.items[0].title, "A");
    assert_eq!(plan.items[0].source, 0);
    assert_eq!(plan.items[1].url, "https://www.youtube.com/watch?v=xyz");
    assert_eq!(plan.items[1].title, "未知标题");
    assert_eq!(plan.items[1].source, 1);
}

#[test]
fn playlist_without_entries_is_refused() {
    let e = build_playlist(None, None).err().unwrap();
    assert_eq!(e.kind, "invalid_url");
    assert_eq!(e.message, "该链接不是播放列表");
    let plan = build_playlist(None, Some(vec![])).ok().unwrap();
    assert_eq!(plan.title, "播放列表");
    assert!(plan.items.is_empty());
}

#[test]
fn video_title_defaults_when_missing() {
    assert_eq!(video_title(Some("Clip".to_string())), "Clip");
    assert_eq!(video_title(None), "未知标题");
}
