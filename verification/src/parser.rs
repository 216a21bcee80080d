//! Link handling: URL validation, the argument lists handed to yt-dlp for
//! `-J` queries, and what a playlist query's entries become.

use vstd::prelude::*;
use crate::error::{ApiError, ErrorView, error_view};
use crate::text::{
    chars_of, concat_str, copy_opt_string, is_control, is_control_char, is_white_space, is_whitespace,
    starts_with, starts_with_str, string_from_chars, sub_chars, trim, trim_bounds, trim_end,
    trim_start,
};

verus! {

/// A `Result` as character sequences and error views.
pub open spec fn result_view(r: Result<String, ApiError>) -> Result<Seq<char>, ErrorView> {
    match r {
        Ok(s) => Ok(s@),
        Err(e) => Err(e@),
    }
}

/// The URL has a character that is whitespace or a control character.
pub open spec fn has_bad_char(u: Seq<char>) -> bool {
    exists|i: int| 0 <= i < u.len() && (is_white_space(#[trigger] u[i]) || is_control_char(u[i]))
}

/// What `validate_url` answers for `url`: the trimmed URL, if it is not
/// empty, starts with `http://` or `https://`, and holds no whitespace or
/// control character.
pub open spec fn url_check(url: Seq<char>) -> Result<Seq<char>, ErrorView> {
    let u = trim(url);
    if u.len() == 0 {
        Err(error_view("invalid_url"@, "请输入链接"@))
    } else if !(starts_with(u, "http://"@) || starts_with(u, "https://"@)) {
        Err(error_view("invalid_url"@, "链接必须以 http:// 或 https:// 开头"@))
    } else if has_bad_char(u) {
        Err(error_view("invalid_url"@, "链接包含非法字符"@))
    } else {
        Ok(u)
    }
}

/// URL validation: only http/https links without whitespace or control
/// characters are accepted (an extra line of defence, arguments are handed
/// over as a list anyway).
pub fn validate_url(url: &str) -> (r: Result<String, ApiError>)
    ensures
        result_view(r) == url_check(url@),
{
    let v = chars_of(url);
    let (a, b) = trim_bounds(&v);
    let u = sub_chars(&v, a, b);
    if u.len() == 0 {
        return Err(ApiError::invalid_url("请输入链接"));
    }
    if !(starts_with_str(&u, "http://") || starts_with_str(&u, "https://")) {
        return Err(ApiError::invalid_url("链接必须以 http:// 或 https:// 开头"));
    }
    let mut i: usize = 0;
    while i < u.len()
        invariant
            i <= u.len(),
            u@ == trim(url@),
            u@.len() > 0,
            starts_with(u@, "http://"@) || starts_with(u@, "https://"@),
            forall|k: int|
                0 <= k < i ==> !is_white_space(#[trigger] u@[k]) && !is_control_char(u@[k]),
        decreases u.len() - i,
    {
        if is_whitespace(u[i]) || is_control(u[i]) {
            assert(has_bad_char(u@));
            return Err(ApiError::invalid_url("链接包含非法字符"));
        }
        i = i + 1;
    }
    Ok(string_from_chars(&u))
}

proof fn lemma_trim_clean(u: Seq<char>)
    requires
        !has_bad_char(u),
    ensures
        trim(u) == u,
{
    if u.len() > 0 {
        assert(!is_white_space(u[0]));
        assert(!is_white_space(u[u.len() - 1]));
    }
    assert(trim_start(u) == u);
}

/// A URL that passed validation passes it again, unchanged.
pub proof fn law_validate_url_idempotent(url: Seq<char>)
    requires
        url_check(url) is Ok,
    ensures
        url_check(url_check(url)->Ok_0) == url_check(url),
{
    let u = trim(url);
    lemma_trim_clean(u);
}

/// The arguments of the single-video query: `-J --no-playlist --no-warnings <url>`.
pub fn video_query_args(url: &str) -> (r: Vec<String>)
    ensures
        r@.map_values(|s: String| s@) == seq!["-J"@, "--no-playlist"@, "--no-warnings"@, url@],
{
    let mut v: Vec<String> = Vec::new();
    v.push(String::from_str("-J"));
    v.push(String::from_str("--no-playlist"));
    v.push(String::from_str("--no-warnings"));
    v.push(String::from_str(url));
    assert(v@.map_values(|s: String| s@) =~= seq!["-J"@, "--no-playlist"@, "--no-warnings"@, url@]);
    v
}

/// The arguments of the playlist query: `-J --flat-playlist --no-warnings <url>`.
pub fn playlist_query_args(url: &str) -> (r: Vec<String>)
    ensures
        r@.map_values(|s: String| s@) == seq!["-J"@, "--flat-playlist"@, "--no-warnings"@, url@],
{
    let mut v: Vec<String> = Vec::new();
    v.push(String::from_str("-J"));
    v.push(String::from_str("--flat-playlist"));
    v.push(String::from_str("--no-warnings"));
    v.push(String::from_str(url));
    assert(v@.map_values(|s: String| s@) =~= seq!["-J"@, "--flat-playlist"@, "--no-warnings"@, url@]);
    v
}

/// An entry of a flat playlist as yt-dlp lists it (its duration stays with
/// the caller, found again by the entry's position).
pub struct RawPlaylistEntry {
    pub url: Option<String>,
    pub id: Option<String>,
    pub title: Option<String>,
    /// `thumbnails[0].url`
    pub thumbnail: Option<String>,
}

/// An entry that can be downloaded; `source` is its position among the raw
/// entries.
pub struct PlaylistItem {
    pub source: usize,
    pub url: String,
    pub title: String,
    pub thumbnail: Option<String>,
}

/// A playlist: its title and the entries that can be downloaded.
pub struct PlaylistPlan {
    pub title: String,
    pub items: Vec<PlaylistItem>,
}

pub struct PlaylistItemView {
    pub source: int,
    pub url: Seq<char>,
    pub title: Seq<char>,
    pub thumbnail: Option<Seq<char>>,
}

impl View for PlaylistItem {
    type V = PlaylistItemView;

    open spec fn view(&self) -> PlaylistItemView {
        PlaylistItemView {
            source: self.source as int,
            url: self.url@,
            title: self.title@,
            thumbnail: self.thumbnail.deep_view(),
        }
    }
}

/// The link of an entry: its `url`, else the watch page of its `id`.
pub open spec fn entry_url(e: RawPlaylistEntry) -> Option<Seq<char>> {
    match e.url {
        Some(u) => Some(u@),
        None => match e.id {
            Some(id) => Some("https://www.youtube.com/watch?v="@ + id@),
            None => None,
        },
    }
}

/// A title, or the placeholder `未知标题` where there is none.
pub open spec fn title_or_unknown(t: Option<String>) -> Seq<char> {
    match t {
        Some(s) => s@,
        None => "未知标题"@,
    }
}

/// The title shown for a single video: its own, or `未知标题` where the
/// query gave none.
pub fn video_title(title: Option<String>) -> (r: String)
    ensures
        r@ == title_or_unknown(title),
{
    match title {
        Some(t) => t,
        None => String::from_str("未知标题"),
    }
}

/// The downloadable entries among the first `n` raw entries, in order: those
/// with a link.
pub open spec fn playlist_items(es: Seq<RawPlaylistEntry>, n: nat) -> Seq<PlaylistItemView>
    decreases n,
{
    if n == 0 {
        seq![]
    } else {
        let prev = playlist_items(es, (n - 1) as nat);
        let e = es[n - 1];
        match entry_url(e) {
            Some(u) => prev.push(
                PlaylistItemView {
                    source: n - 1,
                    url: u,
                    title: title_or_unknown(e.title),
                    thumbnail: e.thumbnail.deep_view(),
                },
            ),
            None => prev,
        }
    }
}

/// What a playlist query's result becomes: an error if it has no entry list,
/// else the title (`播放列表` where there is none) and the entries that have
/// a link.
pub fn build_playlist(title: Option<String>, entries: Option<Vec<RawPlaylistEntry>>) -> (r: Result<
    PlaylistPlan,
    ApiError,
>)
    ensures
        entries is None <==> r is Err,
        r matches Err(e) ==> e@ == error_view("invalid_url"@, "该链接不是播放列表"@),
        r matches Ok(p) ==> {
            &&& p.title@ == (match title {
                Some(t) => t@,
                None => "播放列表"@,
            })
            &&& p.items@.map_values(|it: PlaylistItem| it@) == playlist_items(
                entries->Some_0@,
                entries->Some_0@.len(),
            )
        },
{
    let es = match entries {
        Some(es) => es,
        None => {
            return Err(ApiError::invalid_url("该链接不是播放列表"));
        },
    };
    let mut items: Vec<PlaylistItem> = Vec::new();
    let mut i: usize = 0;
    while i < es.len()
        invariant
            i <= es.len(),
            items@.map_values(|it: PlaylistItem| it@) == playlist_items(es@, i as nat),
        decreases es.len() - i,
    {
        let e = &es[i];
        let ghost prev = items@.map_values(|it: PlaylistItem| it@);
        let url = match &e.url {
            Some(u) => Some(u.clone()),
            None => match &e.id {
                Some(id) => Some(concat_str("https://www.youtube.com/watch?v=", id.as_str())),
                None => None,
            },
        };
        match url {
            Some(u) => {
                let title = match &e.title {
                    Some(t) => t.clone(),
                    None => String::from_str("未知标题"),
                };
                let item = PlaylistItem { source: i, url: u, title, thumbnail: copy_opt_string(&e.thumbnail) };
                items.push(item);
                assert(items@.map_values(|it: PlaylistItem| it@) =~= prev.push(item@));
            },
            None => {},
        }
        i = i + 1;
    }
    let t = match title {
        Some(t) => t,
        None => String::from_str("播放列表"),
    };
    Ok(PlaylistPlan { title: t, items })
}

} // verus!
