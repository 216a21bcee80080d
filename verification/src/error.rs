//! Structured errors: the front end decides by `kind` how to present one
//! (errors of kind `engine` come with a hint to update the download engine).

use vstd::prelude::*;
use crate::text::{chars_of, char_seqs, concat_str, contains, contains_str, join, join_range, last_n, lines, non_blank, non_blank_lines};

verus! {

/// An error as the front end receives it.
#[derive(Debug)]
pub struct ApiError {
    /// "invalid_url" | "network" | "engine" | "internal"
    pub kind: String,
    pub message: String,
}

/// What an `ApiError` holds, as character sequences.
pub struct ErrorView {
    pub kind: Seq<char>,
    pub message: Seq<char>,
}

pub open spec fn error_view(kind: Seq<char>, message: Seq<char>) -> ErrorView {
    ErrorView { kind, message }
}

impl View for ApiError {
    type V = ErrorView;

    open spec fn view(&self) -> ErrorView {
        error_view(self.kind@, self.message@)
    }
}

impl ApiError {
    pub fn new(kind: &str, message: &str) -> (r: ApiError)
        ensures
            r@ == error_view(kind@, message@),
    {
        ApiError { kind: String::from_str(kind), message: String::from_str(message) }
    }

    pub fn invalid_url(message: &str) -> (r: ApiError)
        ensures
            r@ == error_view("invalid_url"@, message@),
    {
        Self::new("invalid_url", message)
    }

    pub fn network(message: &str) -> (r: ApiError)
        ensures
            r@ == error_view("network"@, message@),
    {
        Self::new("network", message)
    }

    pub fn engine(message: &str) -> (r: ApiError)
        ensures
            r@ == error_view("engine"@, message@),
    {
        Self::new("engine", message)
    }

    pub fn internal(message: &str) -> (r: ApiError)
        ensures
            r@ == error_view("internal"@, message@),
    {
        Self::new("internal", message)
    }

    /// The text the error displays as: `[kind] message`.
    pub fn to_display_string(&self) -> (r: String)
        ensures
            r@ == "["@ + self.kind@ + "] "@ + self.message@,
    {
        let s = String::from_str("[");
        let s = s.concat(self.kind.as_str());
        let s = s.concat("] ");
        s.concat(self.message.as_str())
    }
}

/// Unicode lower-case mapping of a whole string, as `str::to_lowercase`
/// computes it.
pub uninterp spec fn lowercase(s: Seq<char>) -> Seq<char>;

/// `str::to_lowercase`: the result is named, nothing more is claimed of it.
#[verifier::external_body]
fn to_lowercase(s: &str) -> (r: String)
    ensures
        r@ == lowercase(s@),
{
    s.to_lowercase()
}

/// The last three non-blank lines of yt-dlp's error output, joined by `\n`.
pub open spec fn error_tail(stderr: Seq<char>) -> Seq<char> {
    join(last_n(non_blank(lines(stderr)), 3), "\n"@)
}

pub open spec fn says_invalid_url(lower: Seq<char>) -> bool {
    contains(lower, "unsupported url"@) || contains(lower, "is not a valid url"@)
}

pub open spec fn says_network(lower: Seq<char>) -> bool {
    ||| contains(lower, "unable to download"@) && (contains(lower, "getaddrinfo"@) || contains(
        lower,
        "timed out"@,
    ) || contains(lower, "connection"@))
    ||| contains(lower, "network"@)
    ||| contains(lower, "getaddrinfo failed"@)
}

pub open spec fn says_login(lower: Seq<char>) -> bool {
    contains(lower, "sign in"@) || contains(lower, "login"@) || contains(lower, "age"@)
}

/// The error that yt-dlp's error output `stderr`, whose lower-case form is
/// `lower`, is classified as: a refused link, a network failure, a video
/// that needs signing in or is age-restricted (not supported, reported as
/// `internal`, apart from refused links), or else an engine failure.
pub open spec fn classify_spec(stderr: Seq<char>, lower: Seq<char>) -> ErrorView {
    if says_invalid_url(lower) {
        error_view("invalid_url"@, "链接无效或不受支持，请检查后重试"@)
    } else if says_network(lower) {
        error_view("network"@, "网络连接失败，请检查网络后重试\n"@ + error_tail(stderr))
    } else if says_login(lower) {
        error_view("internal"@, "该视频需要登录或有年龄限制，v1 不支持此类内容"@)
    } else {
        error_view(
            "engine"@,
            "解析/下载失败，下载引擎可能已过期，请尝试在设置中更新引擎。\n详细信息:\n"@ + error_tail(stderr),
        )
    }
}

/// The last three non-blank lines of `stderr`, joined by `\n`.
pub fn stderr_tail(stderr: &str) -> (r: String)
    ensures
        r@ == error_tail(stderr@),
{
    let v = chars_of(stderr);
    let nb = non_blank_lines(&v);
    let n = nb.len();
    let from = if n <= 3 {
        0
    } else {
        n - 3
    };
    let r = join_range(&nb, from, n, "\n");
    assert(char_seqs(nb@).subrange(from as int, n as int) =~= last_n(char_seqs(nb@), 3));
    r
}

/// Classifies yt-dlp's error output, given with its lower-case form, as an
/// error the user can act on.
pub fn classify_lowered(stderr: &str, lower: &str) -> (r: ApiError)
    ensures
        r@ == classify_spec(stderr@, lower@),
{
    let lv = chars_of(lower);
    if contains_str(&lv, "unsupported url") || contains_str(&lv, "is not a valid url") {
        ApiError::invalid_url("链接无效或不受支持，请检查后重试")
    } else if contains_str(&lv, "unable to download") && (contains_str(&lv, "getaddrinfo")
        || contains_str(&lv, "timed out") || contains_str(&lv, "connection")) || contains_str(
        &lv,
        "network",
    ) || contains_str(&lv, "getaddrinfo failed") {
        let tail = stderr_tail(stderr);
        let msg = concat_str("网络连接失败，请检查网络后重试\n", tail.as_str());
        ApiError::network(msg.as_str())
    } else if contains_str(&lv, "sign in") || contains_str(&lv, "login") || contains_str(&lv, "age") {
        ApiError::internal("该视频需要登录或有年龄限制，v1 不支持此类内容")
    } else {
        let tail = stderr_tail(stderr);
        let msg = concat_str(
            "解析/下载失败，下载引擎可能已过期，请尝试在设置中更新引擎。\n详细信息:\n",
            tail.as_str(),
        );
        ApiError::engine(msg.as_str())
    }
}

/// Classifies yt-dlp's error output as an error the user can act on.
pub fn classify_ytdlp_error(stderr: &str) -> (r: ApiError)
    ensures
        r@ == classify_spec(stderr@, lowercase(stderr@)),
{
    let lower = to_lowercase(stderr);
    classify_lowered(stderr, lower.as_str())
}

/// How yt-dlp's error output is classified, by the phrases its lower-case
/// form holds, in this order of precedence: a refused link (`unsupported
/// url`, `is not a valid url`); a network failure (`unable to download`
/// with `getaddrinfo`, `timed out` or `connection`, or `network`, or
/// `getaddrinfo failed`), told with the last three non-blank lines; a video
/// that needs signing in or is age-restricted (`sign in`, `login`, `age`);
/// else an engine failure, told with the same lines.
pub proof fn law_classification(stderr: Seq<char>, lower: Seq<char>)
    ensures
        ({
            let r = classify_spec(stderr, lower);
            let bad_link = contains(lower, "unsupported url"@) || contains(lower, "is not a valid url"@);
            let net = (contains(lower, "unable to download"@) && (contains(lower, "getaddrinfo"@)
                || contains(lower, "timed out"@) || contains(lower, "connection"@))) || contains(
                lower,
                "network"@,
            ) || contains(lower, "getaddrinfo failed"@);
            let login = contains(lower, "sign in"@) || contains(lower, "login"@) || contains(lower, "age"@);
            let tail = join(last_n(non_blank(lines(stderr)), 3), "\n"@);
            &&& bad_link ==> r == error_view("invalid_url"@, "链接无效或不受支持，请检查后重试"@)
            &&& !bad_link && net ==> r == error_view("network"@, "网络连接失败，请检查网络后重试\n"@ + tail)
            &&& !bad_link && !net && login ==> r == error_view(
                "internal"@,
                "该视频需要登录或有年龄限制，v1 不支持此类内容"@,
            )
            &&& !bad_link && !net && !login ==> r == error_view(
                "engine"@,
                "解析/下载失败，下载引擎可能已过期，请尝试在设置中更新引擎。\n详细信息:\n"@ + tail,
            )
        }),
{
}

} // verus!
