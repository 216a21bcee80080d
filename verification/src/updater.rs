//! Updates of the application itself: version comparison, what the latest
//! release offers, and the progress reports while its installer downloads.

use vstd::prelude::*;
use crate::text::{
    chars_of, contains, contains_str, ends_with, ends_with_str, parse_u64, parse_unsigned,
    sub_chars,
};

verus! {

// ---------------------------------------------------------------- versions

/// `s` without its leading `v`/`V` characters.
pub open spec fn strip_v(s: Seq<char>) -> Seq<char>
    decreases s.len(),
{
    if s.len() > 0 && (s[0] == 'v' || s[0] == 'V') {
        strip_v(s.drop_first())
    } else {
        s
    }
}

pub open spec fn is_version_sep(c: char) -> bool {
    c == '.' || c == '-'
}

/// The pieces of `rest` between separators, the first continuing `cur`.
pub open spec fn split_from(cur: Seq<char>, rest: Seq<char>) -> Seq<Seq<char>>
    decreases rest.len(),
{
    if rest.len() == 0 {
        seq![cur]
    } else if is_version_sep(rest[0]) {
        seq![cur] + split_from(seq![], rest.drop_first())
    } else {
        split_from(cur.push(rest[0]), rest.drop_first())
    }
}

/// The numbers that the pieces start with, up to the first piece that is not
/// a `u64`.
pub open spec fn leading_numbers(ps: Seq<Seq<char>>) -> Seq<u64>
    decreases ps.len(),
{
    if ps.len() == 0 {
        seq![]
    } else {
        match parse_unsigned(ps[0], u64::MAX as nat) {
            Some(n) => seq![n as u64] + leading_numbers(ps.drop_first()),
            None => seq![],
        }
    }
}

/// The numeric parts of a version: `v0.2.0` gives `[0, 2, 0]`; the leading
/// `v`s are dropped, the text is split at `.` and `-`, and the parts are read
/// up to the first that is not a number (so `-beta` and what follows are
/// ignored).
pub open spec fn version_parts(s: Seq<char>) -> Seq<u64> {
    leading_numbers(split_from(seq![], strip_v(s)))
}

/// Lexicographic order on number sequences, a proper prefix ranking below.
pub open spec fn lex_greater(a: Seq<u64>, b: Seq<u64>) -> bool
    decreases a.len(),
{
    if a.len() == 0 {
        false
    } else if b.len() == 0 {
        true
    } else if a[0] != b[0] {
        a[0] > b[0]
    } else {
        lex_greater(a.drop_first(), b.drop_first())
    }
}

/// `latest` names a version newer than `current`.
pub open spec fn newer(latest: Seq<char>, current: Seq<char>) -> bool {
    version_parts(latest).len() > 0 && lex_greater(version_parts(latest), version_parts(current))
}

proof fn lemma_leading_piece(cur: Seq<char>, rest: Seq<Seq<char>>)
    ensures
        leading_numbers(seq![cur] + rest) == (match parse_unsigned(cur, u64::MAX as nat) {
            Some(n) => seq![n as u64] + leading_numbers(rest),
            None => seq![],
        }),
{
    let ps = seq![cur] + rest;
    assert(ps[0] == cur);
    assert(ps.drop_first() =~= rest);
}

/// The numeric parts of a version string.
pub fn parse_ver(v: &str) -> (r: Vec<u64>)
    ensures
        r@ == version_parts(v@),
{
    let c = chars_of(v);
    let mut start: usize = 0;
    assert(c@.skip(0) =~= c@);
    while start < c.len() && (c[start] == 'v' || c[start] == 'V')
        invariant
            start <= c.len(),
            strip_v(c@) == strip_v(c@.skip(start as int)),
        decreases c.len() - start,
    {
        assert(c@.skip(start as int).drop_first() =~= c@.skip(start + 1));
        start = start + 1;
    }
    let ghost body = c@.skip(start as int);
    assert(strip_v(body) == body);
    let mut out: Vec<u64> = Vec::new();
    let mut piece_start = start;
    let mut i = start;
    assert(c@.subrange(start as int, start as int) =~= Seq::<char>::empty());
    while i < c.len()
        invariant
            start <= piece_start <= i <= c.len(),
            version_parts(v@) == out@ + leading_numbers(
                split_from(c@.subrange(piece_start as int, i as int), c@.skip(i as int)),
            ),
        decreases c.len() - i,
    {
        let ghost cur = c@.subrange(piece_start as int, i as int);
        let ghost rest = c@.skip(i as int);
        assert(rest.drop_first() =~= c@.skip(i + 1));
        if c[i] == '.' || c[i] == '-' {
            let piece = sub_chars(&c, piece_start, i);
            proof {
                lemma_leading_piece(cur, split_from(seq![], c@.skip(i + 1)));
            }
            match parse_u64(&piece) {
                Some(n) => {
                    let ghost before = out@;
                    out.push(n);
                    assert(before + (seq![n] + leading_numbers(split_from(seq![], c@.skip(i + 1))))
                        =~= out@ + leading_numbers(split_from(seq![], c@.skip(i + 1))));
                    assert(c@.subrange(i + 1, i + 1) =~= Seq::<char>::empty());
                    piece_start = i + 1;
                },
                None => {
                    assert(out@ + Seq::<u64>::empty() =~= out@);
                    return out;
                },
            }
        } else {
            assert(c@.subrange(piece_start as int, i + 1) =~= cur.push(c@[i as int]));
        }
        i = i + 1;
    }
    let piece = sub_chars(&c, piece_start, c.len());
    proof {
        lemma_leading_piece(piece@, Seq::<Seq<char>>::empty());
        assert(split_from(piece@, c@.skip(c.len() as int)) == seq![piece@]);
        assert(seq![piece@] =~= seq![piece@] + Seq::<Seq<char>>::empty());
    }
    match parse_u64(&piece) {
        Some(n) => {
            out.push(n);
        },
        None => {},
    }
    assert(leading_numbers(Seq::<Seq<char>>::empty()) == Seq::<u64>::empty());
    out
}

/// Lexicographic comparison of number sequences.
pub fn lex_greater_exec(a: &Vec<u64>, b: &Vec<u64>) -> (r: bool)
    ensures
        r == lex_greater(a@, b@),
{
    let mut i: usize = 0;
    assert(a@.skip(0) =~= a@);
    assert(b@.skip(0) =~= b@);
    while i < a.len() && i < b.len()
        invariant
            i <= a.len(),
            i <= b.len(),
            lex_greater(a@, b@) == lex_greater(a@.skip(i as int), b@.skip(i as int)),
        decreases a.len() - i,
    {
        if a[i] != b[i] {
            return a[i] > b[i];
        }
        assert(a@.skip(i as int).drop_first() =~= a@.skip(i + 1));
        assert(b@.skip(i as int).drop_first() =~= b@.skip(i + 1));
        i = i + 1;
    }
    i < a.len()
}

/// Whether `latest` names a version newer than `current`.
pub fn is_newer(latest: &str, current: &str) -> (r: bool)
    ensures
        r == newer(latest@, current@),
{
    let l = parse_ver(latest);
    let c = parse_ver(current);
    l.len() > 0 && lex_greater_exec(&l, &c)
}

proof fn lemma_lex_irreflexive(a: Seq<u64>)
    ensures
        !lex_greater(a, a),
    decreases a.len(),
{
    if a.len() > 0 {
        lemma_lex_irreflexive(a.drop_first());
    }
}

proof fn lemma_lex_asymmetric(a: Seq<u64>, b: Seq<u64>)
    ensures
        !(lex_greater(a, b) && lex_greater(b, a)),
    decreases a.len(),
{
    if a.len() > 0 && b.len() > 0 && a[0] == b[0] {
        lemma_lex_asymmetric(a.drop_first(), b.drop_first());
    }
}

proof fn lemma_lex_transitive(a: Seq<u64>, b: Seq<u64>, c: Seq<u64>)
    requires
        lex_greater(a, b),
        lex_greater(b, c),
    ensures
        lex_greater(a, c),
    decreases a.len(),
{
    if a.len() > 0 && b.len() > 0 && c.len() > 0 && a[0] == b[0] && b[0] == c[0] {
        lemma_lex_transitive(a.drop_first(), b.drop_first(), c.drop_first());
    }
}

/// No version is newer than itself.
pub proof fn law_newer_irreflexive(v: Seq<char>)
    ensures
        !newer(v, v),
{
    lemma_lex_irreflexive(version_parts(v));
}

/// Of two versions, at most one is newer than the other.
pub proof fn law_newer_asymmetric(a: Seq<char>, b: Seq<char>)
    ensures
        !(newer(a, b) && newer(b, a)),
{
    lemma_lex_asymmetric(version_parts(a), version_parts(b));
}

/// Newer than a newer version is newer.
pub proof fn law_newer_transitive(a: Seq<char>, b: Seq<char>, c: Seq<char>)
    requires
        newer(a, b),
        newer(b, c),
    ensures
        newer(a, c),
{
    lemma_lex_transitive(version_parts(a), version_parts(b), version_parts(c));
}

// ---------------------------------------------------------------- releases

/// An asset of a release, as the release listing names it.
pub struct ReleaseAsset {
    pub name: Option<String>,
    pub download_url: Option<String>,
}

/// What the front end is told of the latest release.
pub struct AppUpdateInfo {
    pub available: bool,
    pub current: String,
    pub latest: String,
    pub notes: String,
    pub page_url: String,
    /// the update can be installed from within the application (installed
    /// Windows build, and a setup asset was found)
    pub can_auto_install: bool,
    pub asset_url: Option<String>,
}

/// The x64 installer: a name holding `x64` and ending in `-setup.exe`.
pub open spec fn is_setup_name(n: Seq<char>) -> bool {
    contains(n, "x64"@) && ends_with(n, "-setup.exe"@)
}

pub open spec fn is_setup_asset(a: ReleaseAsset) -> bool {
    a.name matches Some(n) && is_setup_name(n@)
}

/// The download link of the first installer asset (none if that asset has
/// no link, or if there is no installer asset).
pub open spec fn setup_url(assets: Seq<ReleaseAsset>) -> Option<Seq<char>>
    decreases assets.len(),
{
    if assets.len() == 0 {
        None
    } else if is_setup_asset(assets[0]) {
        assets[0].download_url.deep_view()
    } else {
        setup_url(assets.drop_first())
    }
}

pub open spec fn text_or(o: Option<String>, d: Seq<char>) -> Seq<char> {
    match o {
        Some(s) => s@,
        None => d,
    }
}

/// The download link of the first installer asset.
pub fn find_setup_url(assets: &Vec<ReleaseAsset>) -> (r: Option<String>)
    ensures
        r.deep_view() == setup_url(assets@),
{
    let mut i: usize = 0;
    assert(assets@.skip(0) =~= assets@);
    while i < assets.len()
        invariant
            i <= assets.len(),
            setup_url(assets@) == setup_url(assets@.skip(i as int)),
        decreases assets.len() - i,
    {
        let ghost rest = assets@.skip(i as int);
        assert(rest[0] == assets@[i as int]);
        assert(rest.drop_first() =~= assets@.skip(i + 1));
        let hit = match &assets[i].name {
            Some(n) => {
                let c = chars_of(n.as_str());
                contains_str(&c, "x64") && ends_with_str(&c, "-setup.exe")
            },
            None => false,
        };
        if hit {
            return match &assets[i].download_url {
                Some(u) => Some(u.clone()),
                None => None,
            };
        }
        i = i + 1;
    }
    None
}

/// `a` is named as the x64 installer: its name holds `x64` and ends in
/// `-setup.exe`.
pub open spec fn named_x64_setup(a: ReleaseAsset) -> bool {
    a.name is Some && contains(a.name->Some_0@, "x64"@) && ends_with(a.name->Some_0@, "-setup.exe"@)
}

/// The installer link comes from the first asset named as the x64 installer
/// (a name holding `x64` and ending in `-setup.exe`): a link found is that
/// asset's, and none is found exactly when there is no such asset or it has
/// no link.
pub proof fn law_setup_url_is_first_installer(assets: Seq<ReleaseAsset>)
    ensures
        setup_url(assets) matches Some(u) ==> exists|i: int|
            0 <= i < assets.len() && #[trigger] named_x64_setup(assets[i]) && (forall|k: int|
                0 <= k < i ==> !named_x64_setup(assets[k])) && assets[i].download_url.deep_view() == Some(u),
        setup_url(assets) is None ==> forall|i: int|
            0 <= i < assets.len() && #[trigger] named_x64_setup(assets[i]) ==> exists|k: int|
                0 <= k <= i && named_x64_setup(assets[k]) && assets[k].download_url is None,
    decreases assets.len(),
{
    if assets.len() > 0 {
        let rest = assets.drop_first();
        law_setup_url_is_first_installer(rest);
        assert(is_setup_asset(assets[0]) == named_x64_setup(assets[0]));
        if !named_x64_setup(assets[0]) {
            if setup_url(assets) is Some {
                let i = choose|i: int|
                    0 <= i < rest.len() && #[trigger] named_x64_setup(rest[i]) && (forall|k: int|
                        0 <= k < i ==> !named_x64_setup(rest[k])) && rest[i].download_url.deep_view()
                        == Some(setup_url(assets)->Some_0);
                assert(assets[i + 1] == rest[i]);
                assert forall|k: int| 0 <= k < i + 1 implies !named_x64_setup(assets[k]) by {
                    if k > 0 {
                        assert(assets[k] == rest[k - 1]);
                    }
                }
            } else {
                assert forall|i: int| 0 <= i < assets.len() && #[trigger] named_x64_setup(assets[i]) implies exists|k: int|
                    0 <= k <= i && named_x64_setup(assets[k]) && assets[k].download_url is None by {
                    assert(i > 0);
                    assert(assets[i] == rest[i - 1]);
                    assert(named_x64_setup(rest[i - 1]));
                    let k = choose|k: int| 0 <= k <= i - 1 && named_x64_setup(rest[k]) && rest[k].download_url is None;
                    assert(assets[k + 1] == rest[k]);
                }
            }
        } else {
            if setup_url(assets) is None {
                assert forall|i: int| 0 <= i < assets.len() && #[trigger] named_x64_setup(assets[i]) implies exists|k: int|
                    0 <= k <= i && named_x64_setup(assets[k]) && assets[k].download_url is None by {
                    assert(named_x64_setup(assets[0]) && assets[0].download_url is None);
                }
            } else {
                assert(named_x64_setup(assets[0]));
            }
        }
    }
}

/// What the front end is told, from the running version and the fields of
/// the latest release (`tag_name`, `body`, `html_url`, `assets`); the tag and
/// notes default to empty, the page to the releases page.
pub fn app_update_info(
    current: String,
    tag: Option<String>,
    body: Option<String>,
    html_url: Option<String>,
    assets: &Vec<ReleaseAsset>,
    installed_windows: bool,
) -> (r: AppUpdateInfo)
    ensures
        r.latest@ == text_or(tag, ""@),
        r.current@ == current@,
        r.notes@ == text_or(body, ""@),
        r.page_url@ == text_or(html_url, "https://github.com/AmoseCP/TubeGrab/releases/latest"@),
        r.asset_url.deep_view() == setup_url(assets@),
        r.available == newer(text_or(tag, ""@), current@),
        r.can_auto_install == (installed_windows && setup_url(assets@) is Some),
{
    let latest = match tag {
        Some(t) => t,
        None => String::from_str(""),
    };
    let notes = match body {
        Some(b) => b,
        None => String::from_str(""),
    };
    let page_url = match html_url {
        Some(u) => u,
        None => String::from_str("https://github.com/AmoseCP/TubeGrab/releases/latest"),
    };
    let asset_url = find_setup_url(assets);
    let available = is_newer(latest.as_str(), current.as_str());
    let can_auto_install = installed_windows && asset_url.is_some();
    AppUpdateInfo { available, current, latest, notes, page_url, can_auto_install, asset_url }
}

// ---------------------------------------------------------------- download progress

/// Progress of the installer download; a report goes out whenever the
/// whole percentage changes.
pub struct UpdateProgress {
    pub downloaded: u64,
    /// the announced size, 0 if unknown
    pub total: u64,
    pub last_pct: u64,
}

/// The whole percentage downloaded (0 while the size is unknown).
pub open spec fn percent_of(downloaded: nat, total: nat) -> nat {
    if total > 0 {
        downloaded * 100 / total
    } else {
        0
    }
}

impl UpdateProgress {
    pub fn new(total: u64) -> (r: UpdateProgress)
        ensures
            r.downloaded == 0,
            r.total == total,
            r.last_pct == u64::MAX,
    {
        UpdateProgress { downloaded: 0, total, last_pct: u64::MAX }
    }

    /// Counts a chunk of `len` bytes; gives `(downloaded, total)` to report
    /// when the percentage changed.
    pub fn record_chunk(&mut self, len: u64) -> (r: Option<(u64, u64)>)
        requires
            old(self).downloaded + len <= u64::MAX,
            old(self).total == 0 || (old(self).downloaded + len) * 100 <= u64::MAX,
        ensures
            final(self).downloaded == old(self).downloaded + len,
            final(self).total == old(self).total,
            percent_of(final(self).downloaded as nat, final(self).total as nat) != old(self).last_pct
                ==> final(self).last_pct == percent_of(final(self).downloaded as nat, final(self).total as nat)
                && r == Some((final(self).downloaded, final(self).total)),
            percent_of(final(self).downloaded as nat, final(self).total as nat) == old(self).last_pct
                ==> final(self).last_pct == old(self).last_pct && r is None,
    {
        self.downloaded = self.downloaded + len;
        let pct = if self.total > 0 {
            self.downloaded * 100 / self.total
        } else {
            0
        };
        if pct != self.last_pct {
            self.last_pct = pct;
            Some((self.downloaded, self.total))
        } else {
            None
        }
    }
}

} // verus!
