use tubegrab::error::{classify_lowered, classify_ytdlp_error, stderr_tail, ApiError};

#[test]
fn constructors_set_kind() {
    assert_eq!(ApiError::invalid_url("a").kind, "invalid_url");
    assert_eq!(ApiError::network("b").kind, "network");
    assert_eq!(ApiError::engine("c").kind, "engine");
    let e = ApiError::internal("d");
    assert_eq!(e.kind, "internal");
    assert_eq!(e.message, "d");
    assert_eq!(ApiError::new("x", "y").to_display_string(), "[x] y");
}

#[test]
fn classify_invalid_url_after_lowercasing() {
    let e = classify_ytdlp_error("ERROR: Unsupported URL: https://example.com");
    assert_eq!(e.kind, "invalid_url");
    assert_eq!(e.message, "链接无效或不受支持，请检查后重试");
    // the same text given as its own lower-case form is not recognised
    let raw = "ERROR: Unsupported URL: https://example.com";
    assert_eq!(classify_lowered(raw, raw).kind, "engine");
}

#[test]
fn classify_network_keeps_last_lines() {
    let stderr = "l1\n\n   \nERROR: Unable to download webpage: <urlopen error [Errno 11001] getaddrinfo failed>\nl3\r\nl4\n";
    let e = classify_ytdlp_error(stderr);
    assert_eq!(e.kind, "network");
    assert_eq!(
        e.message,
        "网络连接失败，请检查网络后重试\nERROR: Unable to download webpage: <urlopen error [Errno 11001] getaddrinfo failed>\nl3\nl4"
    );
}

#[test]
fn classify_login_and_engine() {
    let e = classify_ytdlp_error("ERROR: Sign in to confirm your age");
    assert_eq!(e.kind, "internal");
    assert_eq!(e.message, "该视频需要登录或有年龄限制，v1 不支持此类内容");
    let e = classify_ytdlp_error("ERROR: something broke\nx");
    assert_eq!(e.kind, "engine");
    assert_eq!(
        e.message,
        "解析/下载失败，下载引擎可能已过期，请尝试在设置中更新引擎。\n详细信息:\nERROR: something broke\nx"
    );
    let e = classify_ytdlp_error("");
    assert_eq!(e.kind, "engine");
    assert_eq!(e.message, "解析/下载失败，下载引擎可能已过期，请尝试在设置中更新引擎。\n详细信息:\n");
}

#[test]
fn tail_is_last_three_non_blank_lines() {
    assert_eq!(stderr_tail("a\nb\n \nc\nd\n"), "b\nc\nd");
    assert_eq!(stderr_tail("only"), "only");
    assert_eq!(stderr_tail("x\r"), "x\r");
    assert_eq!(stderr_tail("\n\n"), "");
}
