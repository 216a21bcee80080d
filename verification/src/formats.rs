//! What a single-video query offers: the best audio stream, and per
//! resolution the best video stream (h264 preferred, as the download
//! strategy does, then the higher bitrate).
//!
//! Bitrates reach this module as order keys: unsigned integers ordered as
//! the bitrates they stand for, a missing bitrate standing for 0 with the
//! key `ZERO_KEY`. Each result names the formats it comes from by their
//! position in the list handed in.

use vstd::prelude::*;
use std::collections::BTreeMap;
use crate::text::{chars_of, equals_str, starts_with, starts_with_str};

verus! {

/// The order key of the bitrate 0.
pub const ZERO_KEY: u64 = 0x8000_0000_0000_0000u64;

/// What the selection reads of one format.
pub struct FormatFacts {
    pub vcodec: Option<String>,
    pub acodec: Option<String>,
    pub ext: Option<String>,
    pub height: Option<u64>,
    /// audio bitrate, as an order key
    pub abr: Option<u64>,
    /// total bitrate, as an order key
    pub tbr: Option<u64>,
    /// the format states a file size, exact or approximate
    pub has_size: bool,
}

/// `o` holds a string equal to `lit`.
pub open spec fn opt_is(o: Option<String>, lit: Seq<char>) -> bool {
    o matches Some(s) && s@ == lit
}

/// A pure audio stream: no video codec (`none`), and an audio codec that is
/// not `none`.
pub open spec fn is_audio_only(f: FormatFacts) -> bool {
    opt_is(f.vcodec, "none"@) && (f.acodec matches Some(a) && a@ != "none"@)
}

pub open spec fn key_or_zero(k: Option<u64>) -> u64 {
    match k {
        Some(v) => v,
        None => ZERO_KEY,
    }
}

/// The chosen audio stream: where its bitrate comes from, and where its
/// size comes from.
#[derive(Clone, Copy, PartialEq, Eq, Structural, Debug)]
pub struct AudioPick {
    pub abr_from: Option<usize>,
    pub size_from: Option<usize>,
}

/// The bitrate key of a pick (that of 0 if it has none).
pub open spec fn pick_key(fs: Seq<FormatFacts>, p: AudioPick) -> u64 {
    match p.abr_from {
        Some(i) => key_or_zero(fs[i as int].abr),
        None => ZERO_KEY,
    }
}

/// The audio pick after the first `n` formats: each pure audio stream whose
/// bitrate (0 if unknown) is at least the current one becomes the pick; its
/// bitrate replaces the current one where it states one, and the size is its
/// own (none if it states none).
pub open spec fn audio_fold(fs: Seq<FormatFacts>, n: nat) -> AudioPick
    decreases n,
{
    if n == 0 {
        AudioPick { abr_from: None, size_from: None }
    } else {
        let p = audio_fold(fs, (n - 1) as nat);
        let f = fs[n - 1];
        if is_audio_only(f) && key_or_zero(f.abr) >= pick_key(fs, p) {
            AudioPick {
                abr_from: if f.abr is Some {
                    Some((n - 1) as usize)
                } else {
                    p.abr_from
                },
                size_from: if f.has_size {
                    Some((n - 1) as usize)
                } else {
                    None
                },
            }
        } else {
            p
        }
    }
}

proof fn lemma_audio_fold_points(fs: Seq<FormatFacts>, n: nat)
    requires
        n <= fs.len(),
        n < usize::MAX,
    ensures
        audio_fold(fs, n).abr_from matches Some(i) ==> i < n && fs[i as int].abr is Some,
        audio_fold(fs, n).size_from matches Some(i) ==> i < n,
    decreases n,
{
    if n > 0 {
        lemma_audio_fold_points(fs, (n - 1) as nat);
    }
}

fn opt_equals(o: &Option<String>, lit: &str) -> (r: bool)
    ensures
        r == opt_is(*o, lit@),
{
    match o {
        Some(s) => {
            let a = chars_of(s.as_str());
            equals_str(&a, lit)
        },
        None => false,
    }
}

fn audio_only(f: &FormatFacts) -> (r: bool)
    ensures
        r == is_audio_only(*f),
{
    opt_equals(&f.vcodec, "none") && match &f.acodec {
        Some(a) => !opt_equals(&f.acodec, "none"),
        None => false,
    }
}

/// The best audio stream, as the pick of all formats in order.
pub fn best_audio(fs: &Vec<FormatFacts>) -> (r: AudioPick)
    ensures
        r == audio_fold(fs@, fs@.len()),
        r.abr_from matches Some(i) ==> i < fs@.len() && pure_audio(fs@[i as int]) && fs@[i as int].abr is Some,
        forall|k: int|
            0 <= k < fs@.len() && #[trigger] pure_audio(fs@[k]) ==> rate_of(fs@[k].abr) <= picked_rate(fs@, r),
        r.size_from matches Some(i) ==> i < fs@.len() && pure_audio(fs@[i as int]) && fs@[i as int].has_size
            && rate_of(fs@[i as int].abr) == picked_rate(fs@, r),
{
    let mut p = AudioPick { abr_from: None, size_from: None };
    let mut key: u64 = ZERO_KEY;
    let mut i: usize = 0;
    while i < fs.len()
        invariant
            i <= fs.len(),
            p == audio_fold(fs@, i as nat),
            key == pick_key(fs@, p),
        decreases fs.len() - i,
    {
        proof {
            lemma_audio_fold_points(fs@, i as nat);
        }
        let f = &fs[i];
        let k = match f.abr {
            Some(v) => v,
            None => ZERO_KEY,
        };
        if audio_only(f) && k >= key {
            if f.abr.is_some() {
                p.abr_from = Some(i);
                key = k;
            }
            p.size_from = if f.has_size {
                Some(i)
            } else {
                None
            };
        }
        i = i + 1;
    }
    proof {
        law_best_audio_is_highest_pure_audio(fs@, fs@.len());
    }
    p
}

// ---------------------------------------------------------------- video

/// A format that offers video at a resolution: a video codec that is not
/// `none`, a height that is not 0 once taken as `u32`, and not a storyboard
/// (`mhtml`).
pub open spec fn is_video_candidate(f: FormatFacts) -> bool {
    &&& f.vcodec matches Some(v) && v@ != "none"@
    &&& f.height is Some
    &&& video_height(f) != 0
    &&& !opt_is(f.ext, "mhtml"@)
}

/// The height of a format, taken as `u32` (the lower 32 bits).
pub open spec fn video_height(f: FormatFacts) -> u32 {
    (f.height->Some_0 % 0x1_0000_0000) as u32
}

/// An h264 stream (codec `avc1...`).
pub open spec fn is_avc(f: FormatFacts) -> bool {
    f.vcodec matches Some(v) && starts_with(v@, "avc1"@)
}

/// `f` ranks above `g`: h264 first, then the higher bitrate (0 if unknown).
pub open spec fn ranks_above(f: FormatFacts, g: FormatFacts) -> bool {
    (is_avc(f) && !is_avc(g)) || (is_avc(f) == is_avc(g) && key_or_zero(f.tbr) > key_or_zero(
        g.tbr,
    ))
}

/// Per height, the position of the best stream among the first `n` formats:
/// the first to offer that height, replaced by each later one that ranks
/// strictly above it.
pub open spec fn video_fold(fs: Seq<FormatFacts>, n: nat) -> Map<u32, int>
    decreases n,
{
    if n == 0 {
        Map::empty()
    } else {
        let m = video_fold(fs, (n - 1) as nat);
        let f = fs[n - 1];
        if !is_video_candidate(f) {
            m
        } else {
            let h = video_height(f);
            if !m.contains_key(h) || ranks_above(f, fs[m[h]]) {
                m.insert(h, n - 1)
            } else {
                m
            }
        }
    }
}

/// One resolution on offer, and the position of its best stream.
#[derive(Clone, Copy, PartialEq, Eq, Structural, Debug)]
pub struct VideoPick {
    pub height: u32,
    pub source: usize,
}

/// `ps` lists the entries of `m` by strictly decreasing height.
pub open spec fn lists_by_height(ps: Seq<VideoPick>, m: Map<u32, int>) -> bool {
    &&& forall|a: int, b: int| 0 <= a < b < ps.len() ==> ps[a].height > ps[b].height
    &&& forall|k: int|
        0 <= k < ps.len() ==> m.contains_key(#[trigger] ps[k].height) && m[ps[k].height]
            == ps[k].source as int
    &&& forall|h: u32| m.contains_key(h) ==> exists|k: int| 0 <= k < ps.len() && #[trigger] ps[k].height == h
}

proof fn lemma_video_fold_points(fs: Seq<FormatFacts>, n: nat)
    requires
        n <= fs.len(),
    ensures
        forall|h: u32| #[trigger] video_fold(fs, n).contains_key(h) ==> 0 <= video_fold(fs, n)[h] < n,
    decreases n,
{
    if n > 0 {
        lemma_video_fold_points(fs, (n - 1) as nat);
        let m = video_fold(fs, (n - 1) as nat);
        assert forall|h: u32| #[trigger] video_fold(fs, n).contains_key(h) implies 0 <= video_fold(
            fs,
            n,
        )[h] < n by {
            if m.contains_key(h) {
                assert(0 <= m[h] < n - 1);
            }
        }
    }
}

fn video_candidate(f: &FormatFacts) -> (r: bool)
    ensures
        r == is_video_candidate(*f),
{
    let has_video = match &f.vcodec {
        Some(v) => !opt_equals(&f.vcodec, "none"),
        None => false,
    };
    match f.height {
        Some(h) => has_video && (h % 0x1_0000_0000) as u32 != 0 && !opt_equals(&f.ext, "mhtml"),
        None => false,
    }
}

fn avc(f: &FormatFacts) -> (r: bool)
    ensures
        r == is_avc(*f),
{
    match &f.vcodec {
        Some(v) => {
            let c = chars_of(v.as_str());
            starts_with_str(&c, "avc1")
        },
        None => false,
    }
}

fn above(f: &FormatFacts, g: &FormatFacts) -> (r: bool)
    ensures
        r == ranks_above(*f, *g),
{
    let fa = avc(f);
    let ga = avc(g);
    let ft = match f.tbr {
        Some(v) => v,
        None => ZERO_KEY,
    };
    let gt = match g.tbr {
        Some(v) => v,
        None => ZERO_KEY,
    };
    (fa && !ga) || (fa == ga && ft > gt)
}

/// `u32` keys compare as the integers they are, so ordered maps keyed by
/// them behave as their contracts say.
pub open spec fn u32_keys_ordered() -> bool {
    vstd::laws_cmp::obeys_cmp::<u32>() && vstd::std_specs::btree::key_obeys_cmp_spec::<u32>()
}

proof fn lemma_u32_keys()
    ensures
        u32_keys_ordered(),
{
    broadcast use vstd::laws_cmp::group_laws_cmp;
    broadcast use vstd::std_specs::btree::group_btree_axioms;
}

/// Keys that a map keyed by `u32` gives in increasing order are increasing.
proof fn lemma_increasing_u32(s: Seq<u32>)
    requires
        vstd::std_specs::btree::increasing_seq(s),
    ensures
        forall|i: int, j: int| 0 <= i < j < s.len() ==> s[i] < s[j],
{
    broadcast use vstd::laws_cmp::group_laws_cmp;
    broadcast use vstd::std_specs::btree::group_btree_axioms;
    assert forall|i: int, j: int| 0 <= i < j < s.len() implies s[i] < s[j] by {
        assert(vstd::std_specs::cmp::OrdSpec::cmp_spec(&s[i], &s[j]) is Less);
    }
}

/// The resolutions on offer, highest first, each with its best stream.
pub fn video_options(fs: &Vec<FormatFacts>) -> (r: Vec<VideoPick>)
    ensures
        lists_by_height(r@, video_fold(fs@, fs@.len())),
        forall|j: int|
            0 <= j < r@.len() ==> (#[trigger] r@[j]).source < fs@.len() && video_at(
                fs@[r@[j].source as int],
                r@[j].height,
            ),
        forall|j: int, k: int|
            0 <= j < r@.len() && 0 <= k < fs@.len() && #[trigger] video_at(fs@[k], (#[trigger] r@[j]).height)
                ==> !beats(fs@[k], fs@[r@[j].source as int]),
        forall|j: int, k: int|
            0 <= j < r@.len() && 0 <= k < r@[j].source && #[trigger] video_at(fs@[k], (#[trigger] r@[j]).height)
                ==> beats(fs@[r@[j].source as int], fs@[k]),
        forall|k: int, h: u32|
            0 <= k < fs@.len() && #[trigger] video_at(fs@[k], h) ==> exists|j: int|
                0 <= j < r@.len() && #[trigger] r@[j].height == h,
{
    broadcast use vstd::std_specs::btree::group_btree_axioms;
    proof {
        lemma_u32_keys();
    }
    let mut by_height: BTreeMap<u32, usize> = BTreeMap::new();
    let mut i: usize = 0;
    while i < fs.len()
        invariant
            i <= fs.len(),
            by_height@.dom() == video_fold(fs@, i as nat).dom(),
            forall|h: u32| #[trigger] by_height@.contains_key(h) ==> by_height@[h] as int == video_fold(fs@, i as nat)[h],
            u32_keys_ordered(),
        decreases fs.len() - i,
    {
        proof {
            lemma_video_fold_points(fs@, i as nat);
        }
        let ghost m = video_fold(fs@, i as nat);
        let f = &fs[i];
        if video_candidate(f) {
            let h = match f.height {
                Some(h) => (h % 0x1_0000_0000) as u32,
                None => 0,
            };
            let replace = match by_height.get(&h) {
                Some(s) => {
                    assert(m.contains_key(h));
                    above(f, &fs[*s])
                },
                None => {
                    assert(!m.contains_key(h));
                    true
                },
            };
            if replace {
                by_height.insert(h, i);
            }
            assert(by_height@.dom() =~= video_fold(fs@, (i + 1) as nat).dom());
        }
        i = i + 1;
    }
    let ghost vf = video_fold(fs@, fs@.len());
    let iter = by_height.iter();
    let ghost kvs = vstd::std_specs::iter::IteratorSpec::remaining(&iter);
    proof {
        lemma_increasing_u32(kvs.map_values(|kv: (&u32, &usize)| *kv.0));
    }
    let mut asc: Vec<VideoPick> = Vec::new();
    for kv in it: iter
        invariant
            it.seq() == kvs,
            asc@.len() == it.index(),
            forall|j: int|
                0 <= j < it.index() ==> (#[trigger] asc@[j]).height == *kvs[j].0 && asc@[j].source
                    == *kvs[j].1,
    {
        let (h, s) = kv;
        asc.push(VideoPick { height: *h, source: *s });
    }
    assert(asc@.len() == kvs.len());
    let n = asc.len();
    let mut r: Vec<VideoPick> = Vec::new();
    let mut k: usize = n;
    while k > 0
        invariant
            k <= n,
            n == asc@.len(),
            r@.len() == n - k,
            forall|j: int| 0 <= j < r@.len() ==> #[trigger] r@[j] == asc@[n - 1 - j],
        decreases k,
    {
        k = k - 1;
        r.push(asc[k]);
    }
    proof {
        let keys = kvs.map_values(|kv: (&u32, &usize)| *kv.0);
        assert forall|a: int, b: int| 0 <= a < b < r@.len() implies r@[a].height > r@[b].height by {
            assert(r@[a] == asc@[n - 1 - a]);
            assert(r@[b] == asc@[n - 1 - b]);
            assert(keys[n - 1 - b] < keys[n - 1 - a]);
        }
        assert forall|j: int| 0 <= j < r@.len() implies vf.contains_key(#[trigger] r@[j].height)
            && vf[r@[j].height] == r@[j].source as int by {
            let i = n - 1 - j;
            assert(r@[j] == asc@[i]);
            assert(by_height@.contains_key(*kvs[i].0));
            assert(by_height@[*kvs[i].0] == *kvs[i].1);
        }
        assert forall|h: u32| vf.contains_key(h) implies exists|j: int|
            0 <= j < r@.len() && #[trigger] r@[j].height == h by {
            assert(by_height@.contains_key(h));
            assert(kvs.contains((&h, &by_height@[h])));
            let i = choose|i: int| 0 <= i < kvs.len() && kvs[i] == (&h, &by_height@[h]);
            assert(asc@[i].height == h);
            assert(r@[n - 1 - i] == asc@[i]);
        }
        law_video_pick_is_best(fs@, fs@.len());
    }
    r
}

// ---------------------------------------------------------------- laws

/// `f` is a pure audio stream: its video codec is `none`, and it names an
/// audio codec other than `none`.
pub open spec fn pure_audio(f: FormatFacts) -> bool {
    &&& f.vcodec matches Some(v) && v@ == "none"@
    &&& f.acodec matches Some(a) && a@ != "none"@
}

/// The bitrate key of a stream, that of 0 where it states none.
pub open spec fn rate_of(k: Option<u64>) -> u64 {
    if k is Some {
        k->Some_0
    } else {
        ZERO_KEY
    }
}

/// The bitrate key of the stream an audio pick takes its bitrate from, that
/// of 0 if it takes none.
pub open spec fn picked_rate(fs: Seq<FormatFacts>, p: AudioPick) -> u64 {
    if p.abr_from is Some {
        rate_of(fs[p.abr_from->Some_0 as int].abr)
    } else {
        ZERO_KEY
    }
}

/// The best audio stream is a pure audio stream with the highest bitrate:
/// the bitrate reported comes from a pure audio stream that states one, no
/// pure audio stream has a higher bitrate, and the size reported is that of
/// a pure audio stream of that same bitrate.
pub proof fn law_best_audio_is_highest_pure_audio(fs: Seq<FormatFacts>, n: nat)
    requires
        n <= fs.len(),
        n <= usize::MAX,
    ensures
        audio_fold(fs, n).abr_from matches Some(i) ==> i < n && pure_audio(fs[i as int])
            && fs[i as int].abr is Some,
        picked_rate(fs, audio_fold(fs, n)) >= ZERO_KEY,
        forall|k: int|
            0 <= k < n && #[trigger] pure_audio(fs[k]) ==> rate_of(fs[k].abr) <= picked_rate(
                fs,
                audio_fold(fs, n),
            ),
        audio_fold(fs, n).size_from matches Some(i) ==> i < n && pure_audio(fs[i as int])
            && fs[i as int].has_size && rate_of(fs[i as int].abr) == picked_rate(fs, audio_fold(fs, n)),
        audio_fold(fs, n).abr_from matches Some(i) ==> forall|k: int|
            i < k < n && #[trigger] pure_audio(fs[k]) && fs[k].abr is Some ==> rate_of(fs[k].abr)
                < picked_rate(fs, audio_fold(fs, n)),
        audio_fold(fs, n).abr_from is None ==> forall|k: int|
            0 <= k < n && #[trigger] pure_audio(fs[k]) && fs[k].abr is Some ==> rate_of(fs[k].abr)
                < ZERO_KEY,
        audio_fold(fs, n).size_from matches Some(i) ==> forall|k: int|
            i < k < n && #[trigger] pure_audio(fs[k]) ==> rate_of(fs[k].abr) < picked_rate(
                fs,
                audio_fold(fs, n),
            ),
        audio_fold(fs, n).size_from is None ==> forall|k: int|
            0 <= k < n && #[trigger] pure_audio(fs[k]) && fs[k].has_size && rate_of(fs[k].abr)
                == picked_rate(fs, audio_fold(fs, n)) ==> exists|k2: int|
                k < k2 < n && #[trigger] pure_audio(fs[k2]) && rate_of(fs[k2].abr) == picked_rate(
                    fs,
                    audio_fold(fs, n),
                ),
    decreases n,
{
    if n > 0 {
        law_best_audio_is_highest_pure_audio(fs, (n - 1) as nat);
        lemma_audio_fold_points(fs, (n - 1) as nat);
        let p = audio_fold(fs, (n - 1) as nat);
        let f = fs[n - 1];
        assert(pure_audio(f) == is_audio_only(f));
        assert(pick_key(fs, p) == picked_rate(fs, p));
        let q = audio_fold(fs, n);
        let taken = pure_audio(f) && rate_of(f.abr) >= picked_rate(fs, p);
        assert(taken ==> picked_rate(fs, q) == rate_of(f.abr));
        assert(!taken ==> q == p);
        assert forall|k: int| 0 <= k < n && #[trigger] pure_audio(fs[k]) implies rate_of(fs[k].abr)
            <= picked_rate(fs, q) by {
            if k < n - 1 {
                assert(rate_of(fs[k].abr) <= picked_rate(fs, p));
            }
        }
        if q.size_from is None {
            assert forall|k: int|
                0 <= k < n && #[trigger] pure_audio(fs[k]) && fs[k].has_size && rate_of(fs[k].abr)
                    == picked_rate(fs, q) implies exists|k2: int|
                k < k2 < n && #[trigger] pure_audio(fs[k2]) && rate_of(fs[k2].abr) == picked_rate(fs, q) by {
                if taken {
                    assert(pure_audio(fs[n - 1]));
                } else {
                    assert(k < n - 1);
                    let k2 = choose|k2: int|
                        k < k2 < n - 1 && #[trigger] pure_audio(fs[k2]) && rate_of(fs[k2].abr) == picked_rate(fs, p);
                    assert(pure_audio(fs[k2]));
                }
            }
        }
    }
}

/// `f` carries video (a codec other than `none`) at height `h`, its height
/// taken as `u32`, and is no storyboard (`mhtml`).
pub open spec fn video_at(f: FormatFacts, h: u32) -> bool {
    &&& f.vcodec matches Some(v) && v@ != "none"@
    &&& f.height matches Some(x) && x % 0x1_0000_0000 == h
    &&& h != 0
    &&& !(f.ext matches Some(e) && e@ == "mhtml"@)
}

/// `f` is an h264 stream (codec `avc1...`).
pub open spec fn h264(f: FormatFacts) -> bool {
    f.vcodec matches Some(v) && starts_with(v@, "avc1"@)
}

/// `f` is a better video stream than `g`: h264 where `g` is not, or the
/// same on that count with a strictly higher bitrate (0 where none is
/// stated).
pub open spec fn beats(f: FormatFacts, g: FormatFacts) -> bool {
    (h264(f) && !h264(g)) || (h264(f) == h264(g) && rate_of(f.tbr) > rate_of(g.tbr))
}

/// Per height, the stream chosen is a video stream of that height that no
/// other stream of that height beats, and every height on offer gets one.
pub proof fn law_video_pick_is_best(fs: Seq<FormatFacts>, n: nat)
    requires
        n <= fs.len(),
    ensures
        forall|h: u32|
            #[trigger] video_fold(fs, n).contains_key(h) ==> 0 <= video_fold(fs, n)[h] < n
                && video_at(fs[video_fold(fs, n)[h]], h),
        forall|h: u32, k: int|
            0 <= k < n && #[trigger] video_at(fs[k], h) ==> video_fold(fs, n).contains_key(h)
                && !beats(fs[k], fs[video_fold(fs, n)[h]]),
        forall|h: u32, k: int|
            0 <= k < n && #[trigger] video_at(fs[k], h) && k < video_fold(fs, n)[h] ==> beats(
                fs[video_fold(fs, n)[h]],
                fs[k],
            ),
    decreases n,
{
    if n > 0 {
        law_video_pick_is_best(fs, (n - 1) as nat);
        let m = video_fold(fs, (n - 1) as nat);
        let f = fs[n - 1];
        let m2 = video_fold(fs, n);
        assert forall|h: u32| video_at(f, h) <==> (is_video_candidate(f) && video_height(f) == h) by {}
        assert forall|g: FormatFacts| #[trigger] ranks_above(f, g) == beats(f, g) by {}
        assert forall|h: u32| #[trigger] m2.contains_key(h) implies 0 <= m2[h] < n && video_at(
            fs[m2[h]],
            h,
        ) by {
            if m.contains_key(h) && m2[h] == m[h] {
            } else {
                assert(m2[h] == n - 1);
            }
        }
        assert forall|h: u32, k: int| 0 <= k < n && #[trigger] video_at(fs[k], h) implies m2.contains_key(h)
            && !beats(fs[k], fs[m2[h]]) by {
            if k < n - 1 {
                assert(m.contains_key(h) && !beats(fs[k], fs[m[h]]));
                if m2[h] != m[h] {
                    assert(m2[h] == n - 1);
                    assert(beats(f, fs[m[h]]));
                }
            } else {
                if m.contains_key(h) && m2[h] == m[h] {
                    assert(!ranks_above(f, fs[m[h]]));
                }
            }
        }
        assert forall|h: u32, k: int|
            0 <= k < n && #[trigger] video_at(fs[k], h) && k < m2[h] implies beats(fs[m2[h]], fs[k]) by {
            assert(k < n - 1);
            assert(m.contains_key(h) && !beats(fs[k], fs[m[h]]));
            if m2[h] != m[h] {
                assert(m2[h] == n - 1);
                assert(beats(f, fs[m[h]]));
            }
        }
    }
}

} // verus!
