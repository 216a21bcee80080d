//! What the engines' (yt-dlp, ffmpeg) output says: version strings and
//! the errors of failed runs.

use vstd::prelude::*;
use vstd::utf8::{decode_utf8, valid_utf8};
use crate::error::{ApiError, classify_spec, classify_ytdlp_error, error_view, lowercase};
use crate::text::{
    char_seqs, chars_of, concat_str, is_white_space, is_whitespace, lines, split_lines, string_from_chars,
    sub_chars, trim, trim_bounds,
};

verus! {

/// The text `String::from_utf8_lossy` makes of a process's output bytes
/// (each invalid sequence replaced by U+FFFD).
pub uninterp spec fn utf8_lossy(bytes: Seq<u8>) -> Seq<char>;

/// `String::from_utf8_lossy`: named; of valid UTF-8 it gives the decoded
/// text.
#[verifier::external_body]
fn decode_output(bytes: &[u8]) -> (r: String)
    ensures
        r@ == utf8_lossy(bytes@),
        valid_utf8(bytes@) ==> r@ == decode_utf8(bytes@),
{
    String::from_utf8_lossy(bytes).into_owned()
}

/// The first line, trimmed (empty for empty text).
pub open spec fn first_line(s: Seq<char>) -> Seq<char> {
    if lines(s).len() > 0 {
        trim(lines(s)[0])
    } else {
        Seq::empty()
    }
}

/// The first line of a text, trimmed.
pub fn first_line_trimmed(s: &str) -> (r: String)
    ensures
        r@ == first_line(s@),
{
    let v = chars_of(s);
    let ls = split_lines(&v);
    if ls.len() == 0 {
        return String::new();
    }
    let (a, b) = trim_bounds(&ls[0]);
    let t = sub_chars(&ls[0], a, b);
    string_from_chars(&t)
}

/// The version a `--version` run printed: the first line of its output.
pub fn version_from_output(stdout: &[u8]) -> (r: String)
    ensures
        r@ == first_line(utf8_lossy(stdout@)),
{
    let text = decode_output(stdout);
    first_line_trimmed(text.as_str())
}

/// The words of `rest` (maximal runs without whitespace), the first
/// continuing `cur`.
pub open spec fn words_from(cur: Seq<char>, rest: Seq<char>) -> Seq<Seq<char>>
    decreases rest.len(),
{
    if rest.len() == 0 {
        if cur.len() == 0 {
            seq![]
        } else {
            seq![cur]
        }
    } else if is_white_space(rest[0]) {
        (if cur.len() == 0 {
            seq![]
        } else {
            seq![cur]
        }) + words_from(seq![], rest.drop_first())
    } else {
        words_from(cur.push(rest[0]), rest.drop_first())
    }
}

/// The words of `s`, as `str::split_whitespace`.
pub open spec fn words(s: Seq<char>) -> Seq<Seq<char>> {
    words_from(seq![], s)
}

/// The version field of ffmpeg's first line (`ffmpeg version <v> ...`): its
/// third word, or the whole line if it has fewer.
pub open spec fn ffmpeg_version_of(line: Seq<char>) -> Seq<char> {
    if words(line).len() > 2 {
        words(line)[2]
    } else {
        line
    }
}

/// The words of a text.
pub fn split_words(v: &Vec<char>) -> (r: Vec<Vec<char>>)
    ensures
        char_seqs(r@) == words(v@),
{
    let mut out: Vec<Vec<char>> = Vec::new();
    let mut cur: Vec<char> = Vec::new();
    let mut i: usize = 0;
    assert(v@.skip(0) =~= v@);
    while i < v.len()
        invariant
            i <= v.len(),
            words(v@) == char_seqs(out@) + words_from(cur@, v@.skip(i as int)),
        decreases v.len() - i,
    {
        let c = v[i];
        let ghost rest = v@.skip(i as int);
        assert(rest.drop_first() =~= v@.skip(i + 1));
        if is_whitespace(c) {
            let ghost before = char_seqs(out@);
            let ghost w = cur@;
            if cur.len() > 0 {
                out.push(cur);
                assert(char_seqs(out@) =~= before.push(w));
                assert(before + (seq![w] + words_from(seq![], v@.skip(i + 1))) =~= before.push(w)
                    + words_from(seq![], v@.skip(i + 1)));
            } else {
                assert(before + (Seq::<Seq<char>>::empty() + words_from(seq![], v@.skip(i + 1)))
                    =~= before + words_from(seq![], v@.skip(i + 1)));
            }
            cur = Vec::new();
        } else {
            cur.push(c);
        }
        i = i + 1;
    }
    if cur.len() > 0 {
        let ghost before = char_seqs(out@);
        let ghost w = cur@;
        out.push(cur);
        assert(char_seqs(out@) =~= before + seq![w]);
    } else {
        assert(char_seqs(out@) + words_from(cur@, v@.skip(i as int)) =~= char_seqs(
            out@,
        ));
    }
    out
}

/// The version field of ffmpeg's first line.
pub fn ffmpeg_version(line: &str) -> (r: String)
    ensures
        r@ == ffmpeg_version_of(line@),
{
    let v = chars_of(line);
    let ws = split_words(&v);
    if ws.len() > 2 {
        string_from_chars(&ws[2])
    } else {
        String::from_str(line)
    }
}

/// The engine versions shown at start-up.
pub struct EngineInfo {
    pub ytdlp_version: String,
    pub ffmpeg_version: String,
}

/// The engine versions, from the output of `yt-dlp --version` and of
/// `ffmpeg -version`.
pub fn engine_info(ytdlp_stdout: &[u8], ffmpeg_stdout: &[u8]) -> (r: EngineInfo)
    ensures
        r.ytdlp_version@ == first_line(utf8_lossy(ytdlp_stdout@)),
        r.ffmpeg_version@ == ffmpeg_version_of(first_line(utf8_lossy(ffmpeg_stdout@))),
{
    let ytdlp_version = version_from_output(ytdlp_stdout);
    let line = version_from_output(ffmpeg_stdout);
    let ffmpeg_version = ffmpeg_version(line.as_str());
    EngineInfo { ytdlp_version, ffmpeg_version }
}

/// The error of a version run that exited abnormally, given its error
/// output as text: `<program> 退出异常: <text>`.
pub fn exit_error_text(program: &str, text: &str) -> (r: ApiError)
    ensures
        r@ == error_view("engine"@, program@ + " 退出异常: "@ + text@),
{
    let msg = concat_str(program, " 退出异常: ");
    let msg = msg.concat(text);
    ApiError::engine(msg.as_str())
}

/// The error of a version run that exited abnormally.
pub fn exit_error(program: &str, stderr: &[u8]) -> (r: ApiError)
    ensures
        r@ == error_view("engine"@, program@ + " 退出异常: "@ + utf8_lossy(stderr@)),
{
    let text = decode_output(stderr);
    exit_error_text(program, text.as_str())
}

/// The error of a failed engine update, given its error output as text:
/// `引擎更新失败: <text>`.
pub fn update_error_text(text: &str) -> (r: ApiError)
    ensures
        r@ == error_view("engine"@, "引擎更新失败: "@ + text@),
{
    let msg = concat_str("引擎更新失败: ", text);
    ApiError::engine(msg.as_str())
}

/// The error of a failed engine update.
pub fn update_error(stderr: &[u8]) -> (r: ApiError)
    ensures
        r@ == error_view("engine"@, "引擎更新失败: "@ + utf8_lossy(stderr@)),
{
    let text = decode_output(stderr);
    update_error_text(text.as_str())
}

/// The error of a failed query run: its error output, classified.
pub fn query_error(stderr: &[u8]) -> (r: ApiError)
    ensures
        r@ == classify_spec(utf8_lossy(stderr@), lowercase(utf8_lossy(stderr@))),
{
    let text = decode_output(stderr);
    classify_ytdlp_error(text.as_str())
}

} // verus!
