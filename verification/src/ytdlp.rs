//! Talking to yt-dlp during a download: the argument list for a format
//! choice, reading its output lines, and how a finished process is judged.

use vstd::prelude::*;
use crate::download::{ProgressEvent, TaskStatus};
use crate::error::{ApiError, classify_spec, classify_ytdlp_error, lowercase};
use crate::text::{
    chars_of, decimal, decimal_string, equals_str, join, parse_u32, parse_unsigned, starts_with,
    starts_with_str, string_from_chars, sub_chars, trim, trim_bounds,
};

verus! {

/// The views of a sequence of strings.
pub open spec fn string_views(v: Seq<String>) -> Seq<Seq<char>> {
    v.map_values(|s: String| s@)
}

/// The height a video format string asks for: `mp4-<height>` with a
/// `u32` height, 1080 for anything else.
pub open spec fn requested_height(format: Seq<char>) -> nat {
    if starts_with(format, "mp4-"@) {
        match parse_unsigned(format.skip(4), u32::MAX as nat) {
            Some(h) => h,
            None => 1080,
        }
    } else {
        1080
    }
}

/// The format selector for a video of height `h`, best choice first: h264
/// at exactly that height, any codec at exactly that height, then h264 not
/// above it, any codec not above it (each with an m4a audio track), and at
/// last the best single file not above it.
pub open spec fn video_selector(h: Seq<char>) -> Seq<char> {
    "bv*[height="@ + h + "][vcodec^=avc1]+ba[ext=m4a]/bv*[height="@ + h
        + "]+ba[ext=m4a]/bv*[height<="@ + h + "][vcodec^=avc1]+ba[ext=m4a]/bv*[height<="@ + h
        + "]+ba[ext=m4a]/b[height<="@ + h + "]"@
}

/// yt-dlp's format arguments for a format string: `mp3` and `m4a` extract
/// the audio, anything else is a video merged into MP4.
pub open spec fn format_args_spec(format: Seq<char>) -> Seq<Seq<char>> {
    if format == "mp3"@ {
        seq!["-f"@, "ba"@, "-x"@, "--audio-format"@, "mp3"@, "--audio-quality"@, "0"@]
    } else if format == "m4a"@ {
        seq!["-f"@, "ba[ext=m4a]/ba"@, "-x"@, "--audio-format"@, "m4a"@]
    } else {
        seq![
            "-f"@,
            video_selector(decimal(requested_height(format))),
            "--merge-output-format"@,
            "mp4"@,
        ]
    }
}

fn push_str(v: &mut Vec<String>, s: &str)
    ensures
        string_views(final(v)@) == string_views(old(v)@).push(s@),
{
    let ghost before = v@;
    v.push(String::from_str(s));
    assert(string_views(v@) =~= string_views(before).push(s@));
}

/// The height asked for by a format string.
pub fn format_height(format: &str) -> (r: u32)
    ensures
        r as nat == requested_height(format@),
{
    let f = chars_of(format);
    if starts_with_str(&f, "mp4-") {
        proof {
            reveal_strlit("mp4-");
        }
        let rest = sub_chars(&f, 4, f.len());
        assert(rest@ =~= f@.skip(4));
        match parse_u32(&rest) {
            Some(h) => h,
            None => 1080,
        }
    } else {
        1080
    }
}

/// yt-dlp's format arguments for a format string (`mp4-<height>`, `mp3` or
/// `m4a`).
pub fn format_args(format: &str) -> (r: Vec<String>)
    ensures
        string_views(r@) == format_args_spec(format@),
{
    let f = chars_of(format);
    let mut v: Vec<String> = Vec::new();
    if equals_str(&f, "mp3") {
        push_str(&mut v, "-f");
        push_str(&mut v, "ba");
        push_str(&mut v, "-x");
        push_str(&mut v, "--audio-format");
        push_str(&mut v, "mp3");
        push_str(&mut v, "--audio-quality");
        push_str(&mut v, "0");
        assert(string_views(v@) =~= format_args_spec(format@));
        return v;
    }
    if equals_str(&f, "m4a") {
        push_str(&mut v, "-f");
        push_str(&mut v, "ba[ext=m4a]/ba");
        push_str(&mut v, "-x");
        push_str(&mut v, "--audio-format");
        push_str(&mut v, "m4a");
        assert(string_views(v@) =~= format_args_spec(format@));
        return v;
    }
    let height = format_height(format);
    let h = decimal_string(height);
    let hs = h.as_str();
    let sel = String::from_str("bv*[height=");
    let sel = sel.concat(hs);
    let sel = sel.concat("][vcodec^=avc1]+ba[ext=m4a]/bv*[height=");
    let sel = sel.concat(hs);
    let sel = sel.concat("]+ba[ext=m4a]/bv*[height<=");
    let sel = sel.concat(hs);
    let sel = sel.concat("][vcodec^=avc1]+ba[ext=m4a]/bv*[height<=");
    let sel = sel.concat(hs);
    let sel = sel.concat("]+ba[ext=m4a]/b[height<=");
    let sel = sel.concat(hs);
    let sel = sel.concat("]");
    assert(sel@ == video_selector(decimal(requested_height(format@))));
    push_str(&mut v, "-f");
    let ghost before = v@;
    v.push(sel);
    assert(string_views(v@) =~= string_views(before).push(video_selector(decimal(requested_height(format@)))));
    push_str(&mut v, "--merge-output-format");
    push_str(&mut v, "mp4");
    assert(string_views(v@) =~= format_args_spec(format@));
    v
}

/// Every `mp4-<h>` with a `u32` height `h` asks for exactly that height.
pub proof fn law_video_height_round_trip(h: u32)
    ensures
        requested_height("mp4-"@ + decimal(h as nat)) == h as nat,
{
    let f = "mp4-"@ + decimal(h as nat);
    crate::text::lemma_parse_decimal(h as nat, u32::MAX as nat);
    assert(f.skip(4) =~= decimal(h as nat)) by {
        assert("mp4-"@.len() == 4) by {
            reveal_strlit("mp4-");
        }
    }
    assert(starts_with(f, "mp4-"@)) by {
        reveal_strlit("mp4-");
        assert(f.subrange(0, 4) =~= "mp4-"@);
    }
}

/// The full argument list of a download: the format arguments, then the
/// fixed options (no playlist, resume, one JSON progress line
/// per update, the final path printed after moving), the ffmpeg location,
/// the output template, and the URL after `--`.
pub open spec fn download_args_spec(
    format: Seq<char>,
    ffmpeg: Seq<char>,
    outtmpl: Seq<char>,
    url: Seq<char>,
) -> Seq<Seq<char>> {
    format_args_spec(format) + seq![
        "--no-playlist"@,
        "-c"@,
        "--newline"@,
        "--progress"@,
        "--progress-template"@,
        "%(progress)j"@,
        "--no-simulate"@,
        "--print"@,
        "after_move:FILEPATH::%(filepath)s"@,
        "--ffmpeg-location"@,
        ffmpeg,
        "-o"@,
        outtmpl,
        "--"@,
        url,
    ]
}

/// The full argument list of a download.
pub fn download_args(format: &str, ffmpeg: &str, outtmpl: &str, url: &str) -> (r: Vec<String>)
    ensures
        string_views(r@) == download_args_spec(format@, ffmpeg@, outtmpl@, url@),
{
    let mut v = format_args(format);
    let ghost fa = string_views(v@);
    push_str(&mut v, "--no-playlist");
    push_str(&mut v, "-c");
    push_str(&mut v, "--newline");
    push_str(&mut v, "--progress");
    push_str(&mut v, "--progress-template");
    push_str(&mut v, "%(progress)j");
    push_str(&mut v, "--no-simulate");
    push_str(&mut v, "--print");
    push_str(&mut v, "after_move:FILEPATH::%(filepath)s");
    push_str(&mut v, "--ffmpeg-location");
    push_str(&mut v, ffmpeg);
    push_str(&mut v, "-o");
    push_str(&mut v, outtmpl);
    push_str(&mut v, "--");
    push_str(&mut v, url);
    assert(string_views(v@) =~= download_args_spec(format@, ffmpeg@, outtmpl@, url@));
    v
}

// ---------------------------------------------------------------- output lines

/// A line `FILEPATH::<path>` reports the final file: its path, trimmed.
pub open spec fn filepath_of(line: Seq<char>) -> Option<Seq<char>> {
    if starts_with(line, "FILEPATH::"@) {
        Some(trim(line.skip(10)))
    } else {
        None
    }
}

/// The final path a stdout line reports, if it is a `FILEPATH::` line.
pub fn filepath_line(line: &str) -> (r: Option<String>)
    ensures
        r.deep_view() == filepath_of(line@),
{
    let v = chars_of(line);
    if !starts_with_str(&v, "FILEPATH::") {
        return None;
    }
    proof {
        reveal_strlit("FILEPATH::");
    }
    let rest = sub_chars(&v, 10, v.len());
    assert(rest@ =~= line@.skip(10));
    let (a, b) = trim_bounds(&rest);
    let t = sub_chars(&rest, a, b);
    Some(string_from_chars(&t))
}

/// What the `status` of a progress report means.
pub open spec fn progress_event_of(status: Option<Seq<char>>) -> ProgressEvent {
    match status {
        Some(s) => if s == "downloading"@ {
            ProgressEvent::Downloading
        } else if s == "finished"@ {
            ProgressEvent::Finished
        } else {
            ProgressEvent::Other
        },
        None => ProgressEvent::Other,
    }
}

/// What the `status` field of a progress report means.
pub fn progress_event(status: &Option<String>) -> (r: ProgressEvent)
    ensures
        r == progress_event_of(status.deep_view()),
{
    match status {
        Some(s) => {
            let v = chars_of(s.as_str());
            if equals_str(&v, "downloading") {
                ProgressEvent::Downloading
            } else if equals_str(&v, "finished") {
                ProgressEvent::Finished
            } else {
                ProgressEvent::Other
            }
        },
        None => ProgressEvent::Other,
    }
}

/// A changed task is reported at most every 200 ms while it downloads, and
/// at once in any other state.
pub fn should_emit(elapsed_millis: u64, status: TaskStatus) -> (r: bool)
    ensures
        r == (elapsed_millis >= 200 || status != TaskStatus::Downloading),
{
    elapsed_millis >= 200 || status != TaskStatus::Downloading
}

/// The error output kept of a running download: its last 40 lines.
pub open spec fn kept_lines(old_lines: Seq<String>, line: String) -> Seq<String> {
    if old_lines.len() + 1 > 40 {
        old_lines.push(line).drop_first()
    } else {
        old_lines.push(line)
    }
}

/// Appends an error output line, dropping the oldest beyond 40.
pub fn push_stderr_line(lines: &mut Vec<String>, line: String)
    ensures
        final(lines)@ == kept_lines(old(lines)@, line),
{
    let ghost before = lines@;
    lines.push(line);
    if lines.len() > 40 {
        lines.remove(0);
        assert(lines@ =~= before.push(line).drop_first());
    }
}

/// The kept error output never holds more than 40 lines, and ends with the
/// line added last.
pub proof fn law_stderr_bounded(old_lines: Seq<String>, line: String)
    requires
        old_lines.len() <= 40,
    ensures
        kept_lines(old_lines, line).len() <= 40,
        kept_lines(old_lines, line).last() == line,
{
}

/// The lines joined by `\n`.
pub fn join_lines(lines: &Vec<String>) -> (r: String)
    ensures
        r@ == join(string_views(lines@), "\n"@),
{
    let mut s = String::new();
    let mut i: usize = 0;
    assert(string_views(lines@).take(0) =~= Seq::<Seq<char>>::empty());
    while i < lines.len()
        invariant
            i <= lines.len(),
            s@ == join(string_views(lines@).take(i as int), "\n"@),
        decreases lines.len() - i,
    {
        let ghost t = string_views(lines@).take(i + 1);
        assert(t.drop_last() =~= string_views(lines@).take(i as int));
        assert(t.last() == lines@[i as int]@);
        if i > 0 {
            s.append("\n");
        } else {
            assert(t.len() == 1);
        }
        s.append(lines[i].as_str());
        proof {
            if i == 0 {
                assert(s@ =~= t[0]);
            }
        }
        i = i + 1;
    }
    assert(string_views(lines@).take(lines.len() as int) =~= string_views(lines@));
    s
}

/// How a download process ended: stopped on request (`Ok(None)`), failed
/// (its error output classified), or succeeded with the reported final path
/// (empty if none was reported).
pub fn download_result(
    killed: bool,
    success: bool,
    stderr_lines: &Vec<String>,
    filepath: Option<String>,
) -> (r: Result<Option<String>, ApiError>)
    ensures
        killed ==> r matches Ok(None),
        !killed && !success ==> (r matches Err(e) && e@ == classify_spec(
            join(string_views(stderr_lines@), "\n"@),
            lowercase(join(string_views(stderr_lines@), "\n"@)),
        )),
        !killed && success ==> (r matches Ok(Some(p)) && p@ == match filepath {
            Some(f) => f@,
            None => Seq::<char>::empty(),
        }),
{
    if killed {
        return Ok(None);
    }
    if !success {
        let joined = join_lines(stderr_lines);
        return Err(classify_ytdlp_error(joined.as_str()));
    }
    match filepath {
        Some(f) => Ok(Some(f)),
        None => Ok(Some(String::new())),
    }
}

} // verus!
