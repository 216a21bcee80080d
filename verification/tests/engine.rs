use tubegrab::engine::{engine_info, exit_error, ffmpeg_version, first_line_trimmed, query_error, update_error, version_from_output};

#[test]
fn versions_from_output() {
    assert_eq!(version_from_output(b"2025.01.15\n"), "2025.01.15");
    assert_eq!(version_from_output(b""), "");
    assert_eq!(version_from_output(b"  v1 \r\nrest"), "v1");
    assert_eq!(version_from_output(b"\xff1.0\n"), "\u{fffd}1.0");
    assert_eq!(first_line_trimmed("\nsecond"), "");
    let info = engine_info(
        b"2025.01.15\n",
        b"ffmpeg version N-118-g1234 Copyright (c) 2000-2025\nbuilt with gcc\n",
    );
    assert_eq!(info.ytdlp_version, "2025.01.15");
    assert_eq!(info.ffmpeg_version, "N-118-g1234");
}

#[test]
fn ffmpeg_version_field() {
    assert_eq!(ffmpeg_version("ffmpeg  version\t7.1 x"), "7.1");
    assert_eq!(ffmpeg_version("ffmpeg version"), "ffmpeg version");
    assert_eq!(ffmpeg_version(""), "");
}

#[test]
fn engine_errors() {
    let e = exit_error("/bin/yt-dlp", b"boom");
    assert_eq!(e.kind, "engine");
    assert_eq!(e.message, "/bin/yt-dlp 退出异常: boom");
    let e = update_error(b"no net");
    assert_eq!(e.message, "引擎更新失败: no net");
    let e = query_error(b"ERROR: [generic] 'x' is not a valid URL");
    assert_eq!(e.kind, "invalid_url");
}
