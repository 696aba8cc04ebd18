use vstd::prelude::*;

use crate::instance::dummy_png;
use crate::text::{
    chars_of, contains_seq, find_chars, lemma_find_from_none, lemma_find_from_some, occurs_at,
};

verus! {

/// Whether `c` is a lowercase hexadecimal digit.
pub open spec fn is_lower_hex(c: char) -> bool {
    ('0' <= c <= '9') || ('a' <= c <= 'f')
}

/// Whether `s` is the hyphenated lowercase text of a UUID of the standard
/// variant whose version digit is `version`: 36 characters, hyphens at 8,
/// 13, 18 and 23 and lowercase hex digits elsewhere, `version` at 14 and one
/// of `8`, `9`, `a`, `b` at 19.
pub open spec fn hyphenated_uuid(s: Seq<char>, version: char) -> bool {
    &&& s.len() == 36
    &&& forall|i: int|
        0 <= i < 36 ==> if i == 8 || i == 13 || i == 18 || i == 23 {
            s[i] == '-'
        } else {
            is_lower_hex(#[trigger] s[i])
        }
    &&& s[14] == version
    &&& (s[19] == '8' || s[19] == '9' || s[19] == 'a' || s[19] == 'b')
}

/// The name of the cache file for the image at `url`: the text form of the
/// version-3 (MD5, URL namespace) UUID of the address.
pub uninterp spec fn url_cache_name(url: Seq<char>) -> Seq<char>;

/// `uuid::Uuid::new_v3(&Uuid::NAMESPACE_URL, url.as_bytes()).to_string()`:
/// the MD5-based UUID of the address, written hyphenated in lowercase, with
/// version digit `3` and the standard variant.
#[verifier::external_body]
fn url_uuid_v3(url: &str) -> (s: String)
    ensures
        s@ == url_cache_name(url@),
        hyphenated_uuid(s@, '3'),
{
    uuid::Uuid::new_v3(&uuid::Uuid::NAMESPACE_URL, url.as_bytes()).to_string()
}

/// What loading an image starts with.
pub enum LoadStart {
    /// The image is loaded already: nothing to do.
    Done,
    /// The image is the built-in placeholder: mark it loaded.
    MarkLoaded,
    /// Look for the image in the cache file of this name, else download it.
    Fetch { cache_file_name: String },
}

/// How loading the image at `url` starts, given whether it is loaded.
pub fn load_start(loaded: bool, url: &str) -> (s: LoadStart)
    ensures
        loaded ==> s is Done,
        !loaded && url@ == dummy_png() ==> s is MarkLoaded,
        !loaded && url@ != dummy_png() ==> (s matches LoadStart::Fetch { cache_file_name }
            && cache_file_name@ == url_cache_name(url@) && hyphenated_uuid(cache_file_name@, '3')),
{
    if loaded {
        return LoadStart::Done;
    }
    let dummy = crate::instance::dummy_png_url();
    let c = chars_of(url);
    let d = chars_of(dummy.as_str());
    if crate::text::starts_with(c.as_slice(), d.as_slice()) && c.len() == d.len() {
        proof {
            assert(c@ =~= d@);
        }
        return LoadStart::MarkLoaded;
    }
    proof {
        if c@ == d@ {
            assert(c@.take(d@.len() as int) =~= d@);
        }
    }
    LoadStart::Fetch { cache_file_name: url_uuid_v3(url) }
}

/// What to do once the server has answered a download.
pub enum ResponseAction {
    /// The answer is no success: give up and mark the image loaded.
    MarkLoaded,
    /// The answer is a success: read the body.
    ReadBody,
}

/// Whether an HTTP status code is a success (200 to 299).
pub open spec fn is_success_status(status: u16) -> bool {
    200 <= status < 300
}

/// What to do with an answer of HTTP status `status`.
pub fn response_action(status: u16) -> (a: ResponseAction)
    ensures
        is_success_status(status) ==> a is ReadBody,
        !is_success_status(status) ==> a is MarkLoaded,
{
    if 200 <= status && status < 300 {
        ResponseAction::ReadBody
    } else {
        ResponseAction::MarkLoaded
    }
}

/// The largest image written to the cache, in bytes, plus one.
pub const CACHE_FILE_LIMIT: usize = 1048576;

/// Whether a downloaded image is written to the cache: only when the server
/// marks it immutable (`Cache-Control` contains `immutable`) and it is
/// smaller than 1 MiB.
pub open spec fn should_cache(cache_control: Option<Seq<char>>, body_len: int) -> bool {
    &&& cache_control matches Some(cc) && contains_seq(cc, immutable_directive())
    &&& body_len < CACHE_FILE_LIMIT
}

/// `immutable`, the `Cache-Control` directive of a response that never
/// changes.
pub open spec fn immutable_directive() -> Seq<char> {
    seq!['i', 'm', 'm', 'u', 't', 'a', 'b', 'l', 'e']
}

/// Whether a downloaded image is written to the cache (see `should_cache`).
pub fn should_cache_of(cache_control: Option<&str>, body_len: usize) -> (b: bool)
    ensures
        b == should_cache(
            match cache_control {
                Some(c) => Some(c@),
                None => None,
            },
            body_len as int,
        ),
{
    let immutable = match cache_control {
        Some(cc) => {
            let c = chars_of(cc);
            let word: [char; 9] = ['i', 'm', 'm', 'u', 't', 'a', 'b', 'l', 'e'];
            proof {
                assert(word@ =~= immutable_directive());
            }
            let found = find_chars(c.as_slice(), word.as_slice(), 0);
            proof {
                if found is Some {
                    lemma_find_from_some(c@, word@, 0);
                    assert(occurs_at(cc@, immutable_directive(), found->0 as int));
                } else {
                    lemma_find_from_none(c@, word@, 0);
                    assert forall|i: int| !occurs_at(cc@, immutable_directive(), i) by {
                        if i >= 0 {
                            assert(!occurs_at(c@, word@, i));
                        }
                    }
                }
            }
            found.is_some()
        },
        None => false,
    };
    immutable && body_len < CACHE_FILE_LIMIT
}

/// The positions of the cache entries to drop: those loaded and held by
/// fewer than `rc` references. `entries` gives, per entry, whether it is
/// loaded and how many references hold it.
pub open spec fn eviction_targets(entries: Seq<(bool, usize)>, rc: usize) -> Seq<usize>
    decreases entries.len(),
{
    if entries.len() == 0 {
        seq![]
    } else {
        let rest = eviction_targets(entries.drop_last(), rc);
        let (loaded, count) = entries.last();
        if loaded && count < rc {
            rest.push((entries.len() - 1) as usize)
        } else {
            rest
        }
    }
}

/// The positions of the cache entries to drop (see `eviction_targets`).
pub fn eviction_targets_of(entries: &[(bool, usize)], rc: usize) -> (r: Vec<usize>)
    ensures
        r@ == eviction_targets(entries@, rc),
{
    let mut r: Vec<usize> = Vec::new();
    let mut i: usize = 0;
    while i < entries.len()
        invariant
            i <= entries@.len(),
            r@ == eviction_targets(entries@.take(i as int), rc),
        decreases entries@.len() - i,
    {
        proof {
            assert(entries@.take(i + 1).drop_last() =~= entries@.take(i as int));
            assert(entries@.take(i + 1).last() == entries@[i as int]);
        }
        let (loaded, count) = entries[i];
        if loaded && count < rc {
            r.push(i);
        }
        i = i + 1;
    }
    proof {
        assert(entries@.take(i as int) =~= entries@);
    }
    r
}

/// The directory for cached images: the one configured, or `cache`.
pub fn cache_dir_from(configured: Option<String>) -> (d: String)
    ensures
        configured matches Some(c) ==> d@ == c@,
        configured is None ==> d@ == seq!['c', 'a', 'c', 'h', 'e'],
{
    match configured {
        Some(c) => c,
        None => {
            proof {
                reveal_strlit("cache");
            }
            String::from_str("cache")
        },
    }
}

/// Law: the eviction targets are exactly the positions of the loaded
/// entries held by fewer than `rc` references, in increasing order.
pub proof fn law_eviction_targets_exact(entries: Seq<(bool, usize)>, rc: usize)
    requires
        entries.len() <= usize::MAX,
    ensures
        forall|k: int|
            0 <= k < eviction_targets(entries, rc).len() ==> {
                let i = #[trigger] eviction_targets(entries, rc)[k] as int;
                0 <= i < entries.len() && entries[i].0 && entries[i].1 < rc
            },
        forall|i: int|
            0 <= i < entries.len() && entries[i].0 && entries[i].1 < rc ==> eviction_targets(
                entries,
                rc,
            ).contains(i as usize),
        forall|k: int, l: int|
            0 <= k < l < eviction_targets(entries, rc).len() ==> eviction_targets(entries, rc)[k]
                < eviction_targets(entries, rc)[l],
    decreases entries.len(),
{
    if entries.len() > 0 {
        let init = entries.drop_last();
        law_eviction_targets_exact(init, rc);
        let rest = eviction_targets(init, rc);
        let r = eviction_targets(entries, rc);
        assert forall|k: int| 0 <= k < r.len() implies {
            let i = #[trigger] r[k] as int;
            0 <= i < entries.len() && entries[i].0 && entries[i].1 < rc
        } by {
            if k < rest.len() {
                assert(r[k] == rest[k]);
                assert(entries[r[k] as int] == init[r[k] as int]);
            } else {
                assert(r[k] as int == entries.len() - 1);
            }
        }
        assert forall|i: int| 0 <= i < entries.len() && entries[i].0 && entries[i].1 < rc implies r.contains(i as usize) by {
            if i < entries.len() - 1 {
                assert(init[i] == entries[i]);
                assert(rest.contains(i as usize));
                let k = choose|k: int| 0 <= k < rest.len() && rest[k] == i as usize;
                assert(r[k] == rest[k]);
            } else {
                assert(r[r.len() - 1] == i as usize);
            }
        }
        assert forall|k: int, l: int| 0 <= k < l < r.len() implies r[k] < r[l] by {
            if l >= rest.len() {
                assert(r[l] as int == entries.len() - 1);
                assert(r[k] == rest[k]);
                assert(rest[k] < init.len());
            } else {
                assert(r[k] == rest[k] && r[l] == rest[l]);
            }
        }
    }
}

/// Law: the text of a UUID is a plain file name: it holds no path separator
/// and no dot, so a cache file named by it stays in the cache directory.
pub proof fn law_uuid_is_plain_file_name(s: Seq<char>, version: char)
    requires
        hyphenated_uuid(s, version),
    ensures
        !s.contains('/'),
        !s.contains('\\'),
        !s.contains('.'),
        s.len() > 0,
{
    assert forall|i: int| 0 <= i < s.len() implies s[i] != '/' && s[i] != '\\' && s[i] != '.' by {
        if !(i == 8 || i == 13 || i == 18 || i == 23) {
            assert(is_lower_hex(s[i]));
        }
    }
}

/// The cache entries that eviction keeps: those not loaded or held by at
/// least `rc` references, in order.
pub open spec fn surviving_entries(entries: Seq<(bool, usize)>, rc: usize) -> Seq<(bool, usize)> {
    entries.filter(|e: (bool, usize)| !(e.0 && e.1 < rc))
}

proof fn lemma_no_targets(entries: Seq<(bool, usize)>, rc: usize)
    requires
        forall|k: int| 0 <= k < entries.len() ==> !(#[trigger] entries[k].0 && entries[k].1 < rc),
    ensures
        eviction_targets(entries, rc) == Seq::<usize>::empty(),
    decreases entries.len(),
{
    if entries.len() > 0 {
        let init = entries.drop_last();
        assert forall|k: int| 0 <= k < init.len() implies !(#[trigger] init[k].0 && init[k].1
            < rc) by {
            assert(init[k] == entries[k]);
        }
        lemma_no_targets(init, rc);
        assert(entries.last() == entries[entries.len() - 1]);
    }
}

/// Law: nothing is evicted with a bound of at most 1 from entries that are
/// each held by at least one reference (as every entry of the map is).
pub proof fn law_no_eviction_below_one(entries: Seq<(bool, usize)>, rc: usize)
    requires
        rc <= 1,
        forall|k: int| 0 <= k < entries.len() ==> #[trigger] entries[k].1 >= 1,
    ensures
        eviction_targets(entries, rc) == Seq::<usize>::empty(),
{
    assert forall|k: int| 0 <= k < entries.len() implies !(#[trigger] entries[k].0 && entries[k].1
        < rc) by {
        assert(entries[k].1 >= 1);
    }
    lemma_no_targets(entries, rc);
}

/// Law: evicting twice in a row evicts nothing the second time: among the
/// entries that the first eviction keeps, with their flags and counts
/// unchanged, none is a target.
pub proof fn law_eviction_is_idempotent(entries: Seq<(bool, usize)>, rc: usize)
    ensures
        eviction_targets(surviving_entries(entries, rc), rc) == Seq::<usize>::empty(),
{
    let pred = |e: (bool, usize)| !(e.0 && e.1 < rc);
    entries.filter_lemma(pred);
    let s = surviving_entries(entries, rc);
    assert forall|k: int| 0 <= k < s.len() implies !(#[trigger] s[k].0 && s[k].1 < rc) by {
        assert(pred(s[k]));
    }
    lemma_no_targets(s, rc);
}

/// Law: a download is written to the cache exactly when its body is
/// smaller than 1 MiB and the word `immutable` occurs somewhere in its
/// `Cache-Control` header, wherever it stands among the directives; never
/// without that header.
pub proof fn law_cached_when_immutable_anywhere(cc: Seq<char>, body_len: int)
    ensures
        should_cache(Some(cc), body_len) <==> (body_len < 1048576 && exists|i: int|
            0 <= i && i + 9 <= cc.len() && #[trigger] cc.subrange(i, i + 9) == seq![
                'i',
                'm',
                'm',
                'u',
                't',
                'a',
                'b',
                'l',
                'e',
            ]),
        !should_cache(None, body_len),
{
    let w = seq!['i', 'm', 'm', 'u', 't', 'a', 'b', 'l', 'e'];
    assert(immutable_directive() == w);
    if exists|i: int| 0 <= i && i + 9 <= cc.len() && #[trigger] cc.subrange(i, i + 9) == w {
        let i = choose|i: int| 0 <= i && i + 9 <= cc.len() && #[trigger] cc.subrange(i, i + 9) == w;
        assert(occurs_at(cc, w, i));
    }
    if contains_seq(cc, w) {
        let i = choose|i: int| occurs_at(cc, w, i);
        assert(cc.subrange(i, i + 9) == w);
    }
}

} // verus!
