use vstd::prelude::*;
use vstd::slice::slice_subrange;

use crate::emoji::{emoji_id, emoji_id_of, twemoji_url, twemoji_url_of};
use crate::text::{
    chars_of, concat_str, ends_with, find_chars, find_from, has_prefix, has_suffix, occurs_at,
    starts_with, string_from_chars,
};

verus! {

/// An emoji found in the raw text of an MFM string, before ordering: the
/// character index where it starts, how many characters it spans, its
/// identifier and the address of its image.
pub struct EmojiToken {
    pub start: usize,
    pub len: usize,
    pub id: String,
    pub url: String,
}

/// The mathematical value of an `EmojiToken`.
pub ghost struct TokenView {
    pub start: int,
    pub len: int,
    pub id: Seq<char>,
    pub url: Seq<char>,
}

impl View for EmojiToken {
    type V = TokenView;

    open spec fn view(&self) -> TokenView {
        TokenView { start: self.start as int, len: self.len as int, id: self.id@, url: self.url@ }
    }
}

/// The values of a sequence of tokens.
pub open spec fn token_views(s: Seq<EmojiToken>) -> Seq<TokenView> {
    s.map_values(|t: EmojiToken| t@)
}

/// The values of a list of (name, address) pairs.
pub open spec fn pair_views(s: Seq<(String, String)>) -> Seq<(Seq<char>, Seq<char>)> {
    s.map_values(|p: (String, String)| (p.0@, p.1@))
}

/// How a custom emoji `name` is written in MFM text: `:name:`.
pub open spec fn pattern_of(name: Seq<char>) -> Seq<char> {
    seq![':'] + name + seq![':']
}

/// The successive, non-overlapping occurrences of `p` in `r` at or after
/// `from`, each as a token carrying `p` as its identifier and `url`.
pub open spec fn key_tokens(r: Seq<char>, p: Seq<char>, url: Seq<char>, from: int) -> Seq<
    TokenView,
>
    decreases r.len() + 1 - from,
{
    if p.len() == 0 || from < 0 {
        seq![]
    } else {
        match find_from(r, p, from) {
            Some(i) => {
                proof {
                    crate::text::lemma_find_from_some(r, p, from);
                }
                seq![TokenView { start: i, len: p.len() as int, id: p, url: url }] + key_tokens(
                    r,
                    p,
                    url,
                    i + p.len(),
                )
            },
            None => seq![],
        }
    }
}

/// The custom-emoji tokens of `r`: for each known (name, address) pair in
/// turn, every occurrence of `:name:`, in order.
pub open spec fn known_tokens(r: Seq<char>, known: Seq<(Seq<char>, Seq<char>)>) -> Seq<TokenView>
    decreases known.len(),
{
    if known.len() == 0 {
        seq![]
    } else {
        known_tokens(r, known.drop_last()) + key_tokens(
            r,
            pattern_of(known.last().0),
            known.last().1,
            0,
        )
    }
}

fn key_tokens_of(rc: &[char], name: &str, url: &str, out: &mut Vec<EmojiToken>)
    ensures
        token_views(final(out)@) == token_views(old(out)@) + key_tokens(
            rc@,
            pattern_of(name@),
            url@,
            0,
        ),
{
    let mut pat = concat_str(":", name);
    pat.append(":");
    proof {
        reveal_strlit(":");
        assert(pat@ =~= pattern_of(name@));
    }
    let pc = chars_of(pat.as_str());
    let ghost p = pattern_of(name@);
    let ghost all = key_tokens(rc@, p, url@, 0);
    let mut from: usize = 0;
    let n = rc.len();
    loop
        invariant
            n == rc@.len(),
            p == pattern_of(name@),
            all == key_tokens(rc@, p, url@, 0),
            pc@ == p,
            pat@ == p,
            p.len() >= 2,
            from <= rc@.len() + 1,
            token_views(old(out)@) + all == token_views(out@) + key_tokens(rc@, p, url@, from as int),
        decreases rc@.len() + 1 - from,
    {
        match find_chars(rc, pc.as_slice(), from) {
            Some(i) => {
                proof {
                    crate::text::lemma_find_from_some(rc@, p, from as int);
                }
                let ghost before = out@;
                out.push(EmojiToken { start: i, len: pc.len(), id: pat.clone(), url: String::from_str(url) });
                proof {
                    assert(token_views(out@) =~= token_views(before).push(out@.last()@));
                    assert(key_tokens(rc@, p, url@, from as int) =~= seq![out@.last()@] + key_tokens(rc@, p, url@, (i + pc.len()) as int));
                }
                assert(i + p.len() <= rc@.len());
                from = i + pc.len();
            },
            None => {
                assert(key_tokens(rc@, p, url@, from as int) =~= seq![]);
                assert(token_views(old(out)@) + all =~= token_views(out@));
                return;
            },
        }
    }
}

/// The custom-emoji tokens of the text `rc` for the known emojis `known`.
fn known_tokens_of(rc: &[char], known: &[(String, String)]) -> (out: Vec<EmojiToken>)
    ensures
        token_views(out@) == known_tokens(rc@, pair_views(known@)),
{
    let mut out: Vec<EmojiToken> = Vec::new();
    let mut k: usize = 0;
    while k < known.len()
        invariant
            k <= known@.len(),
            token_views(out@) == known_tokens(rc@, pair_views(known@).take(k as int)),
        decreases known@.len() - k,
    {
        let ghost before = out@;
        key_tokens_of(rc, known[k].0.as_str(), known[k].1.as_str(), &mut out);
        proof {
            let kv = pair_views(known@);
            assert(kv.take(k + 1).drop_last() =~= kv.take(k as int));
            assert(kv.take(k + 1).last() == kv[k as int]);
        }
        k = k + 1;
    }
    assert(pair_views(known@).take(k as int) =~= pair_views(known@));
    out
}

/// The number of bytes in the UTF-8 encoding of `c`.
pub open spec fn utf8_width(c: char) -> int {
    if (c as u32) < 0x80 {
        1
    } else if (c as u32) < 0x800 {
        2
    } else if (c as u32) < 0x10000 {
        3
    } else {
        4
    }
}

/// The byte offset, in the UTF-8 encoding of `r`, of the character at index
/// `i`.
pub open spec fn byte_offset(r: Seq<char>, i: int) -> int
    decreases i,
{
    if i <= 0 {
        0
    } else {
        byte_offset(r, i - 1) + utf8_width(r[i - 1])
    }
}

/// Whether the byte range `span` holds exactly the character at index `i`
/// of `r`.
pub open spec fn covers_char(r: Seq<char>, span: (usize, usize), i: int) -> bool {
    &&& 0 <= i < r.len()
    &&& span.0 == byte_offset(r, i)
    &&& span.1 == byte_offset(r, i + 1)
}

/// Whether `spans` are byte ranges of single characters of `r`, in order and
/// without overlap.
pub open spec fn valid_char_spans(r: Seq<char>, spans: Seq<(usize, usize)>) -> bool {
    &&& forall|k: int| 0 <= k < spans.len() ==> span_is_char(r, #[trigger] spans[k])
    &&& forall|k: int| 0 <= k < spans.len() - 1 ==> #[trigger] spans[k].1 <= spans[k + 1].0
}

/// Whether the byte range `span` holds exactly one character of `r`.
pub open spec fn span_is_char(r: Seq<char>, span: (usize, usize)) -> bool {
    exists|i: int| covers_char(r, span, i)
}

/// The index of the character whose bytes `span` holds.
pub open spec fn span_char(r: Seq<char>, span: (usize, usize)) -> int {
    choose|i: int| covers_char(r, span, i)
}

/// The Unicode-emoji tokens of `r` for the matched character ranges `spans`:
/// each match longer than one byte gives a one-character token whose
/// identifier is the code point of that character in hex and whose image is
/// its Twemoji file on `local_instance`.
pub open spec fn emoji_tokens(r: Seq<char>, spans: Seq<(usize, usize)>, local_instance: Seq<char>) -> Seq<
    TokenView,
>
    decreases spans.len(),
{
    if spans.len() == 0 {
        seq![]
    } else {
        let rest = emoji_tokens(r, spans.drop_last(), local_instance);
        let s = spans.last();
        if s.1 - s.0 == 1 {
            rest
        } else {
            let i = span_char(r, s);
            let id = emoji_id(r[i]);
            rest.push(TokenView { start: i, len: 1, id: id, url: twemoji_url(local_instance, id) })
        }
    }
}

pub(crate) proof fn lemma_byte_offset_step(r: Seq<char>, i: int)
    requires
        0 <= i,
    ensures
        byte_offset(r, i + 1) == byte_offset(r, i) + utf8_width(r[i]),
        1 <= utf8_width(r[i]) <= 4,
{
}

pub(crate) proof fn lemma_byte_offset_increasing(r: Seq<char>, i: int, j: int)
    requires
        0 <= i < j,
    ensures
        byte_offset(r, i) < byte_offset(r, j),
    decreases j - i,
{
    if j > i + 1 {
        lemma_byte_offset_increasing(r, i, j - 1);
    }
}

pub(crate) proof fn lemma_byte_offset_injective(r: Seq<char>, i: int, j: int)
    requires
        0 <= i,
        0 <= j,
        byte_offset(r, i) == byte_offset(r, j),
    ensures
        i == j,
{
    if i < j {
        lemma_byte_offset_increasing(r, i, j);
    } else if j < i {
        lemma_byte_offset_increasing(r, j, i);
    }
}

/// Whether byte offset `b` of the UTF-8 encoding of `s` falls on a character
/// boundary (its end included).
pub open spec fn is_boundary(s: Seq<char>, b: int) -> bool {
    exists|i: int| 0 <= i <= s.len() && byte_offset(s, i) == b
}

/// The index of the character that starts at byte offset `b` of the UTF-8
/// encoding of `s` (the length of `s` for its end).
pub open spec fn char_at_byte(s: Seq<char>, b: int) -> int {
    choose|i: int| 0 <= i <= s.len() && byte_offset(s, i) == b
}

/// For each byte offset of the UTF-8 encoding of `rc`, up to its end, the
/// index of the character that starts there, if one does.
pub(crate) fn char_starts(rc: &[char]) -> (m: Vec<Option<usize>>)
    ensures
        m@.len() == byte_offset(rc@, rc@.len() as int) + 1,
        m@.len() >= 1,
        forall|b: int| 0 <= b < m@.len() ==> (m@[b] is Some <==> is_boundary(rc@, b)),
        forall|b: int|
            0 <= b < m@.len() ==> (#[trigger] m@[b] matches Some(i) ==> i == char_at_byte(rc@, b)),
        forall|b: int| b >= m@.len() ==> !is_boundary(rc@, b),
{
    let mut m: Vec<Option<usize>> = Vec::new();
    let mut i: usize = 0;
    while i < rc.len()
        invariant
            i <= rc@.len(),
            m@.len() == byte_offset(rc@, i as int),
            forall|b: int|
                0 <= b < m@.len() ==> (#[trigger] m@[b] matches Some(j) ==> 0 <= j < i && byte_offset(
                    rc@,
                    j as int,
                ) == b),
            forall|b: int|
                0 <= b < m@.len() ==> (#[trigger] m@[b] is None ==> forall|j: int|
                    0 <= j < i ==> #[trigger] byte_offset(rc@, j) != b),
        decreases rc@.len() - i,
    {
        proof {
            lemma_byte_offset_step(rc@, i as int);
        }
        let ghost o = m@.len() as int;
        let w = utf8_width_of(rc[i]);
        let ghost m1 = m@;
        m.push(Some(i));
        proof {
            assert forall|b: int| 0 <= b < o implies m@[b] == m1[b] by {}
        }
        let mut k: usize = 1;
        while k < w
            invariant
                1 <= k <= w,
                w == utf8_width(rc@[i as int]),
                1 <= w <= 4,
                0 <= o,
                i < rc@.len(),
                o == byte_offset(rc@, i as int),
                m@.len() == o + k,
                m@[o] == Some(i),
                forall|b: int| o < b < m@.len() ==> m@[b] is None,
                forall|b: int|
                    0 <= b < o ==> (#[trigger] m@[b] matches Some(j) ==> 0 <= j < i && byte_offset(
                        rc@,
                        j as int,
                    ) == b),
                forall|b: int|
                    0 <= b < o ==> (#[trigger] m@[b] is None ==> forall|j: int|
                        0 <= j < i ==> #[trigger] byte_offset(rc@, j) != b),
            decreases w - k,
        {
            let ghost m0 = m@;
            m.push(None);
            proof {
                assert(m@[o] == m0[o]);
                assert forall|b: int| 0 <= b < o implies m@[b] == m0[b] by {}
            }
            k = k + 1;
        }
        proof {
            assert forall|b: int| 0 <= b < m@.len() && m@[b] is None implies forall|j: int|
                0 <= j < i + 1 ==> #[trigger] byte_offset(rc@, j) != b by {
                assert forall|j: int| 0 <= j < i + 1 implies #[trigger] byte_offset(rc@, j) != b by {
                    if j < i {
                        lemma_byte_offset_increasing(rc@, j, i as int);
                    }
                }
            }
        }
        i = i + 1;
    }
    let ghost n = m@.len() as int;
    let ghost m2 = m@;
    m.push(Some(i));
    proof {
        assert forall|b: int| 0 <= b < n implies m@[b] == m2[b] by {}
        assert forall|b: int| 0 <= b < m@.len() implies (#[trigger] m@[b] matches Some(j) ==> j
            == char_at_byte(rc@, b)) by {
            if b == n {
                assert(byte_offset(rc@, rc@.len() as int) == b);
                let c = char_at_byte(rc@, b);
                lemma_byte_offset_injective(rc@, c, rc@.len() as int);
            } else if m@[b] is Some {
                let j = m@[b]->0;
                assert(byte_offset(rc@, j as int) == b);
                let c = char_at_byte(rc@, b);
                lemma_byte_offset_injective(rc@, c, j as int);
            }
        }
        assert forall|b: int| 0 <= b < m@.len() implies (m@[b] is Some <==> is_boundary(rc@, b)) by {
            if b == n {
                assert(byte_offset(rc@, rc@.len() as int) == b);
            } else if m@[b] is Some {
                let j = m@[b]->0;
                assert(byte_offset(rc@, j as int) == b);
            } else {
                if is_boundary(rc@, b) {
                    let j = choose|j: int| 0 <= j <= rc@.len() && byte_offset(rc@, j) == b;
                    if j == rc@.len() {
                        assert(false);
                    }
                    assert(byte_offset(rc@, j) == b);
                }
            }
        }
        assert forall|b: int| b >= m@.len() implies !is_boundary(rc@, b) by {
            if is_boundary(rc@, b) {
                let j = choose|j: int| 0 <= j <= rc@.len() && byte_offset(rc@, j) == b;
                if j < rc@.len() {
                    lemma_byte_offset_increasing(rc@, j, rc@.len() as int);
                }
            }
        }
    }
    m
}

pub(crate) fn utf8_width_of(c: char) -> (w: usize)
    ensures
        w == utf8_width(c),
{
    let v = c as u32;
    if v < 0x80 {
        1
    } else if v < 0x800 {
        2
    } else if v < 0x10000 {
        3
    } else {
        4
    }
}

/// The Unicode-emoji tokens of the text `rc` for the matched ranges `spans`.
fn emoji_tokens_of(rc: &[char], spans: &[(usize, usize)], local_instance: &str) -> (out: Vec<
    EmojiToken,
>)
    requires
        valid_char_spans(rc@, spans@),
    ensures
        token_views(out@) == emoji_tokens(rc@, spans@, local_instance@),
        forall|k: int| 0 <= k < out@.len() ==> out@[k].start < rc@.len() && out@[k].len == 1,
{
    let mut out: Vec<EmojiToken> = Vec::new();
    let n = rc.len();
    let mut i: usize = 0;
    let mut b: usize = 0;
    let mut k: usize = 0;
    while k < spans.len()
        invariant
            n == rc@.len(),
            valid_char_spans(rc@, spans@),
            k <= spans@.len(),
            i <= n,
            b == byte_offset(rc@, i as int),
            k < spans@.len() ==> i <= span_char(rc@, spans@[k as int]),
            token_views(out@) == emoji_tokens(rc@, spans@.take(k as int), local_instance@),
            forall|m: int| 0 <= m < out@.len() ==> out@[m].start < rc@.len() && out@[m].len == 1,
        decreases spans@.len() - k,
    {
        let (s, e) = spans[k];
        let ghost j = span_char(rc@, spans@[k as int]);
        proof {
            assert(span_is_char(rc@, spans@[k as int]));
        }
        while b < s
            invariant
                n == rc@.len(),
                covers_char(rc@, spans@[k as int], j),
                s == spans@[k as int].0,
                i <= j,
                b == byte_offset(rc@, i as int),
            decreases j - i,
        {
            proof {
                if i == j {
                    assert(false);
                }
                lemma_byte_offset_step(rc@, i as int);
                if i + 1 < j {
                    lemma_byte_offset_increasing(rc@, i + 1, j);
                }
            }
            b = b + utf8_width_of(rc[i]);
            i = i + 1;
        }
        proof {
            if i < j {
                lemma_byte_offset_increasing(rc@, i as int, j);
            }
            assert(i == j);
            assert(spans@.take(k + 1).drop_last() =~= spans@.take(k as int));
        }
        let ghost before = out@;
        if e - s != 1 {
            let c = rc[i];
            let id = emoji_id_of(c);
            let url = twemoji_url_of(local_instance, id.as_str());
            out.push(EmojiToken { start: i, len: 1, id: id, url: url });
            proof {
                assert(token_views(out@) =~= token_views(before).push(out@.last()@));
            }
        }
        proof {
            if k + 1 < spans@.len() {
                let j2 = span_char(rc@, spans@[k + 1]);
                assert(span_is_char(rc@, spans@[k + 1]));
                assert(spans@[k as int].1 <= spans@[k + 1].0);
                lemma_byte_offset_step(rc@, j);
                if j2 <= j {
                    if j2 < j {
                        lemma_byte_offset_increasing(rc@, j2, j);
                    }
                }
            }
        }
        k = k + 1;
    }
    assert(spans@.take(k as int) =~= spans@);
    out
}

/// Where a token starting at `start` goes in `sorted`: after every trailing
/// token that does not start later than it.
pub open spec fn insert_pos(sorted: Seq<TokenView>, start: int) -> int
    decreases sorted.len(),
{
    if sorted.len() == 0 || sorted.last().start <= start {
        sorted.len() as int
    } else {
        insert_pos(sorted.drop_last(), start)
    }
}

/// `t` inserted into `sorted` after the tokens that start no later.
pub open spec fn insert_token(sorted: Seq<TokenView>, t: TokenView) -> Seq<TokenView> {
    let p = insert_pos(sorted, t.start);
    sorted.take(p) + seq![t] + sorted.skip(p)
}

/// The stable sort of `s` by start position: tokens that start at the same
/// place keep their relative order.
pub open spec fn sort_by_start(s: Seq<TokenView>) -> Seq<TokenView>
    decreases s.len(),
{
    if s.len() == 0 {
        s
    } else {
        insert_token(sort_by_start(s.drop_last()), s.last())
    }
}

/// Whether the tokens of `s` are in order of their start positions.
pub open spec fn sorted_by_start(s: Seq<TokenView>) -> bool {
    forall|i: int, j: int| 0 <= i < j < s.len() ==> s[i].start <= s[j].start
}

proof fn lemma_insert_pos_bounds(sorted: Seq<TokenView>, start: int)
    ensures
        0 <= insert_pos(sorted, start) <= sorted.len(),
        forall|i: int|
            insert_pos(sorted, start) <= i < sorted.len() ==> sorted[i].start > start,
        sorted_by_start(sorted) ==> forall|i: int|
            0 <= i < insert_pos(sorted, start) ==> sorted[i].start <= start,
    decreases sorted.len(),
{
    if sorted.len() > 0 && sorted.last().start > start {
        lemma_insert_pos_bounds(sorted.drop_last(), start);
        let p = insert_pos(sorted, start);
        assert forall|i: int| p <= i < sorted.len() implies sorted[i].start > start by {
            if i < sorted.len() - 1 {
                assert(sorted[i] == sorted.drop_last()[i]);
            }
        }
        if sorted_by_start(sorted) {
            assert(sorted_by_start(sorted.drop_last()));
            assert forall|i: int| 0 <= i < p implies sorted[i].start <= start by {
                assert(sorted[i] == sorted.drop_last()[i]);
            }
        }
    }
}

/// Sorting by start position gives tokens in order of their start positions,
/// and the same tokens as before.
pub proof fn lemma_sort_by_start(s: Seq<TokenView>)
    ensures
        sorted_by_start(sort_by_start(s)),
        sort_by_start(s).to_multiset() == s.to_multiset(),
        sort_by_start(s).len() == s.len(),
    decreases s.len(),
{
    broadcast use vstd::seq_lib::group_to_multiset_ensures;

    if s.len() > 0 {
        let prev = sort_by_start(s.drop_last());
        lemma_sort_by_start(s.drop_last());
        let t = s.last();
        let p = insert_pos(prev, t.start);
        lemma_insert_pos_bounds(prev, t.start);
        let res = insert_token(prev, t);
        assert(res.len() == s.len());
        assert forall|i: int, j: int| 0 <= i < j < res.len() implies res[i].start <= res[j].start by {
            if j < p {
                assert(res[i] == prev[i] && res[j] == prev[j]);
            } else if j == p {
                assert(res[j] == t);
                assert(res[i] == prev[i]);
            } else if i < p {
                assert(res[i] == prev[i] && res[j] == prev[j - 1]);
            } else if i == p {
                assert(res[i] == t && res[j] == prev[j - 1]);
            } else {
                assert(res[i] == prev[i - 1] && res[j] == prev[j - 1]);
            }
        }
        assert(prev =~= prev.take(p) + prev.skip(p));
        vstd::seq_lib::lemma_multiset_commutative(prev.take(p), prev.skip(p));
        vstd::seq_lib::lemma_multiset_commutative(prev.take(p) + seq![t], prev.skip(p));
        vstd::seq_lib::lemma_multiset_commutative(prev.take(p), seq![t]);
        assert(s =~= s.drop_last().push(t));
    }
}

/// Sorts tokens stably by start position (see `sort_by_start`).
fn sort_tokens(v: Vec<EmojiToken>) -> (res: Vec<EmojiToken>)
    ensures
        token_views(res@) == sort_by_start(token_views(v@)),
        res@.to_multiset() == v@.to_multiset(),
{
    let ghost orig = v@;
    let ghost ov = token_views(v@);
    let mut input = v;
    let mut res: Vec<EmojiToken> = Vec::new();
    let ghost mut taken: int = 0;
    proof {
        broadcast use vstd::seq_lib::group_to_multiset_ensures;

        assert(orig.take(0) =~= Seq::<EmojiToken>::empty());
        assert(res@ =~= Seq::<EmojiToken>::empty());
        assert(orig.skip(0) =~= orig);
        assert(ov.take(0) =~= Seq::<TokenView>::empty());
    }
    while input.len() > 0
        invariant
            0 <= taken <= orig.len(),
            input@ == orig.skip(taken),
            token_views(res@) == sort_by_start(ov.take(taken)),
            res@.to_multiset() == orig.take(taken).to_multiset(),
            ov == token_views(orig),
        decreases input@.len(),
    {
        let t = input.remove(0);
        proof {
            assert(t == orig[taken]);
            assert(input@ =~= orig.skip(taken + 1));
        }
        let ghost sv = token_views(res@);
        let mut p = res.len();
        assert(sv.take(p as int) =~= sv);
        while p > 0 && res[p - 1].start > t.start
            invariant
                p <= res@.len(),
                sv == token_views(res@),
                insert_pos(sv, t.start as int) == insert_pos(sv.take(p as int), t.start as int),
            decreases p,
        {
            proof {
                assert(sv.take(p as int).drop_last() =~= sv.take(p - 1));
            }
            p = p - 1;
        }
        proof {
            assert(sv.take(p as int).len() == p);
            if p > 0 {
                assert(sv.take(p as int).last() == sv[p - 1]);
            }
            assert(sv.take(sv.len() as int) =~= sv);
        }
        let ghost before = res@;
        res.insert(p, t);
        proof {
            broadcast use vstd::seq_lib::group_to_multiset_ensures;

            assert(token_views(res@) =~= sv.take(p as int) + seq![t@] + sv.skip(p as int));
            assert(ov.take(taken + 1).drop_last() =~= ov.take(taken));
            assert(ov.take(taken + 1).last() == t@);
            assert(before =~= before.take(p as int) + before.skip(p as int));
            vstd::seq_lib::lemma_multiset_commutative(before.take(p as int), before.skip(p as int));
            vstd::seq_lib::lemma_multiset_commutative(before.take(p as int) + seq![t], before.skip(p as int));
            vstd::seq_lib::lemma_multiset_commutative(before.take(p as int), seq![t]);
            assert(res@ =~= before.take(p as int) + seq![t] + before.skip(p as int));
            assert(orig.take(taken + 1) =~= orig.take(taken).push(t));
            taken = taken + 1;
        }
    }
    proof {
        assert(ov.take(taken) =~= ov);
        assert(orig.take(taken) =~= orig);
    }
    res
}

/// A piece of rendered MFM text: plain text, or an emoji with the identifier
/// it is cached under, the address of its image and the character range of
/// the raw text that it stands for.
pub enum MfmPiece {
    Text(String),
    Emoji { id: String, url: String, start: usize, end: usize },
}

/// The mathematical value of an `MfmPiece`.
pub ghost enum PieceView {
    Text(Seq<char>),
    Emoji { id: Seq<char>, url: Seq<char>, start: int, end: int },
}

impl View for MfmPiece {
    type V = PieceView;

    open spec fn view(&self) -> PieceView {
        match self {
            MfmPiece::Text(t) => PieceView::Text(t@),
            MfmPiece::Emoji { id, url, start, end } => PieceView::Emoji {
                id: id@,
                url: url@,
                start: *start as int,
                end: *end as int,
            },
        }
    }
}

/// The values of a sequence of pieces.
pub open spec fn piece_views(s: Seq<MfmPiece>) -> Seq<PieceView> {
    s.map_values(|p: MfmPiece| p@)
}

/// The identifier an emoji is cached under: a custom emoji `:name:` becomes
/// `name` followed by the instance suffix (`@host`, or nothing for the local
/// instance); any other identifier stays as it is.
pub open spec fn unique_emoji_id(id: Seq<char>, instance_suffix: Seq<char>) -> Seq<char> {
    if has_prefix(id, seq![':']) && has_suffix(id, seq![':']) {
        id.subrange(1, id.len() - 1) + instance_suffix
    } else {
        id
    }
}

/// The pieces that the sorted tokens `toks` cut the raw text `r` into, with
/// the text read so far ending at `offset`: before each token, the text
/// since `offset` when there is any; the token as an emoji; after the last
/// token, the rest of the text when there is any. Reading resumes after each
/// token, also when that lies before the previous one.
pub open spec fn pieces_from(
    r: Seq<char>,
    toks: Seq<TokenView>,
    offset: int,
    instance_suffix: Seq<char>,
) -> Seq<PieceView>
    decreases toks.len(),
{
    if toks.len() == 0 {
        if offset < r.len() {
            seq![PieceView::Text(r.subrange(offset, r.len() as int))]
        } else {
            seq![]
        }
    } else {
        let t = toks[0];
        let before = if offset < t.start {
            seq![PieceView::Text(r.subrange(offset, t.start))]
        } else {
            seq![]
        };
        before + seq![
            PieceView::Emoji {
                id: unique_emoji_id(t.id, instance_suffix),
                url: t.url,
                start: t.start,
                end: t.start + t.len,
            },
        ] + pieces_from(r, toks.drop_first(), t.start + t.len, instance_suffix)
    }
}

fn unique_emoji_id_of(id: &String, instance_suffix: &str) -> (u: String)
    requires
        id@ != seq![':'],
    ensures
        u@ == unique_emoji_id(id@, instance_suffix@),
{
    let idc = chars_of(id.as_str());
    let colon: [char; 1] = [':'];
    proof {
        assert(colon@ =~= seq![':']);
    }
    if starts_with(idc.as_slice(), colon.as_slice()) && ends_with(idc.as_slice(), colon.as_slice()) {
        proof {
            if idc@.len() == 1 {
                assert(idc@ =~= seq![':']);
            }
        }
        let name = string_from_chars(slice_subrange(idc.as_slice(), 1, idc.len() - 1));
        let mut u = name;
        u.append(instance_suffix);
        u
    } else {
        id.clone()
    }
}

fn text_piece(rc: &[char], from: usize, to: usize) -> (p: MfmPiece)
    requires
        from <= to <= rc@.len(),
    ensures
        p@ == PieceView::Text(rc@.subrange(from as int, to as int)),
{
    MfmPiece::Text(string_from_chars(slice_subrange(rc, from, to)))
}

/// The pieces that the sorted tokens `toks` cut `rc` into (see
/// `pieces_from`).
fn pieces_of(rc: &[char], toks: &Vec<EmojiToken>, instance_suffix: &str) -> (out: Vec<MfmPiece>)
    requires
        forall|k: int|
            0 <= k < toks@.len() ==> toks@[k].start + toks@[k].len <= rc@.len() && toks@[k].id@
                != seq![':'],
    ensures
        piece_views(out@) == pieces_from(rc@, token_views(toks@), 0, instance_suffix@),
{
    let ghost tv = token_views(toks@);
    let ghost all = pieces_from(rc@, tv, 0, instance_suffix@);
    let mut out: Vec<MfmPiece> = Vec::new();
    let mut offset: usize = 0;
    let mut k: usize = 0;
    let n = rc.len();
    proof {
        assert(tv.skip(0) =~= tv);
    }
    while k < toks.len()
        invariant
            n == rc@.len(),
            tv == token_views(toks@),
            all == pieces_from(rc@, tv, 0, instance_suffix@),
            k <= toks@.len(),
            offset <= rc@.len(),
            forall|m: int|
                0 <= m < toks@.len() ==> toks@[m].start + toks@[m].len <= rc@.len() && toks@[m].id@
                    != seq![':'],
            piece_views(out@) + pieces_from(rc@, tv.skip(k as int), offset as int, instance_suffix@)
                == all,
        decreases toks@.len() - k,
    {
        let t = &toks[k];
        assert(toks@[k as int].start + toks@[k as int].len <= rc@.len());
        let ghost before = out@;
        let ghost rest = tv.skip(k as int);
        proof {
            assert(rest[0] == t@);
            assert(rest.drop_first() =~= tv.skip(k + 1));
        }
        if offset < t.start {
            out.push(text_piece(rc, offset, t.start));
        }
        let ghost mid = out@;
        let id = unique_emoji_id_of(&t.id, instance_suffix);
        out.push(MfmPiece::Emoji { id: id, url: t.url.clone(), start: t.start, end: t.start + t.len });
        proof {
            let b = if (offset as int) < t.start {
                seq![PieceView::Text(rc@.subrange(offset as int, t.start as int))]
            } else {
                seq![]
            };
            assert(piece_views(mid) =~= piece_views(before) + b);
            assert(piece_views(out@) =~= piece_views(mid).push(out@.last()@));
        }
        offset = t.start + t.len;
        k = k + 1;
    }
    let ghost before = out@;
    if offset < rc.len() {
        out.push(text_piece(rc, offset, rc.len()));
        proof {
            assert(piece_views(out@) =~= piece_views(before).push(out@.last()@));
        }
    }
    proof {
        assert(tv.skip(k as int) =~= Seq::<TokenView>::empty());
        assert(piece_views(out@) =~= all);
    }
    out
}

/// Whether token `t` lies within `r` and has an identifier that the piece
/// builder can read (anything but a lone ':').
pub open spec fn token_fits(r: Seq<char>, t: TokenView) -> bool {
    &&& 0 <= t.start
    &&& 1 <= t.len
    &&& t.start + t.len <= r.len()
    &&& t.id != seq![':']
}

/// Whether every token of `s` fits `r`.
pub open spec fn tokens_fit(r: Seq<char>, s: Seq<TokenView>) -> bool {
    forall|k: int| 0 <= k < s.len() ==> token_fits(r, #[trigger] s[k])
}

proof fn lemma_key_tokens_fit(r: Seq<char>, p: Seq<char>, url: Seq<char>, from: int)
    requires
        p.len() >= 2,
    ensures
        tokens_fit(r, key_tokens(r, p, url, from)),
    decreases r.len() + 1 - from,
{
    if from >= 0 {
        if let Some(i) = find_from(r, p, from) {
            crate::text::lemma_find_from_some(r, p, from);
            lemma_key_tokens_fit(r, p, url, i + p.len());
            let s = key_tokens(r, p, url, from);
            let rest = key_tokens(r, p, url, i + p.len());
            assert forall|k: int| 0 <= k < s.len() implies token_fits(r, #[trigger] s[k]) by {
                if k > 0 {
                    assert(s[k] == rest[k - 1]);
                } else {
                    assert(s[0].id.len() == p.len());
                }
            }
        }
    }
}

proof fn lemma_known_tokens_fit(r: Seq<char>, known: Seq<(Seq<char>, Seq<char>)>)
    ensures
        tokens_fit(r, known_tokens(r, known)),
    decreases known.len(),
{
    if known.len() > 0 {
        lemma_known_tokens_fit(r, known.drop_last());
        let p = pattern_of(known.last().0);
        lemma_key_tokens_fit(r, p, known.last().1, 0);
        let a = known_tokens(r, known.drop_last());
        let b = key_tokens(r, p, known.last().1, 0);
        assert forall|k: int| 0 <= k < (a + b).len() implies token_fits(r, #[trigger] (a + b)[k]) by {
            if k >= a.len() {
                assert((a + b)[k] == b[k - a.len()]);
            }
        }
    }
}

proof fn lemma_hex_lower_no_colon(d: Seq<u8>)
    ensures
        forall|i: int| 0 <= i < hex_lower_len(d) ==> #[trigger] crate::emoji::hex_lower(d)[i] != ':',
    decreases d.len(),
{
    let h = crate::emoji::hex_lower(d);
    if d.len() > 0 {
        lemma_hex_lower_no_colon(d.drop_first());
        let rest = crate::emoji::hex_lower(d.drop_first());
        assert forall|i: int| 0 <= i < hex_lower_len(d) implies #[trigger] h[i] != ':' by {
            if i >= 2 {
                assert(h[i] == rest[i - 2]);
            }
        }
    }
}

spec fn hex_lower_len(d: Seq<u8>) -> int {
    crate::emoji::hex_lower(d).len() as int
}

proof fn lemma_emoji_id_not_colon(c: char)
    ensures
        emoji_id(c) != seq![':'],
{
    let d = crate::emoji::be_bytes(c as u32);
    let h = crate::emoji::hex_lower(d);
    lemma_hex_lower_no_colon(d);
    let z = crate::emoji::leading_zeros(h) as int;
    crate::emoji::lemma_leading_zeros_bound(h);
    if emoji_id(c) == seq![':'] {
        assert(emoji_id(c) == h.skip(z));
        assert(h.skip(z).len() == 1);
        assert(h.skip(z)[0] == h[z]);
        assert(false);
    }
}

proof fn lemma_emoji_tokens_fit(r: Seq<char>, spans: Seq<(usize, usize)>, local: Seq<char>)
    requires
        valid_char_spans(r, spans),
    ensures
        tokens_fit(r, emoji_tokens(r, spans, local)),
    decreases spans.len(),
{
    if spans.len() > 0 {
        let init = spans.drop_last();
        assert(valid_char_spans(r, init)) by {
            assert(init.len() == spans.len() - 1);
            assert forall|k: int| 0 <= k < init.len() implies span_is_char(r, #[trigger] init[k]) by {
                assert(init[k] == spans[k]);
                assert(span_is_char(r, spans[k]));
            }
            assert forall|k: int| 0 <= k < init.len() - 1 implies #[trigger] init[k].1 <= init[k + 1].0 by {
                assert(init[k] == spans[k] && init[k + 1] == spans[k + 1]);
            }
        }
        lemma_emoji_tokens_fit(r, init, local);
        let sp = spans.last();
        assert(span_is_char(r, spans[spans.len() - 1]));
        let i = span_char(r, sp);
        lemma_emoji_id_not_colon(r[i]);
    }
}

proof fn lemma_sort_keeps_fit(r: Seq<char>, s: Seq<TokenView>)
    requires
        tokens_fit(r, s),
    ensures
        tokens_fit(r, sort_by_start(s)),
{
    broadcast use vstd::seq_lib::group_to_multiset_ensures;

    lemma_sort_by_start(s);
    let t = sort_by_start(s);
    assert forall|k: int| 0 <= k < t.len() implies token_fits(r, #[trigger] t[k]) by {
        assert(t.to_multiset().count(t[k]) > 0);
        assert(s.contains(t[k]));
    }
}

/// The suffix that custom-emoji identifiers get for an instance: `@host`,
/// or nothing for the local instance.
pub open spec fn instance_suffix(host: Option<Seq<char>>) -> Seq<char> {
    match host {
        Some(h) => seq!['@'] + h,
        None => seq![],
    }
}

/// The pieces of the MFM text `r`: the custom emojis `known` (each name
/// with the address of its image) and the Unicode emojis at the matched
/// ranges `spans`, sorted stably by position, cut the text into text and
/// emoji pieces (see `pieces_from`).
pub open spec fn mfm_pieces(
    r: Seq<char>,
    known: Seq<(Seq<char>, Seq<char>)>,
    spans: Seq<(usize, usize)>,
    suffix: Seq<char>,
    local_instance: Seq<char>,
) -> Seq<PieceView> {
    pieces_from(
        r,
        sort_by_start(known_tokens(r, known) + emoji_tokens(r, spans, local_instance)),
        0,
        suffix,
    )
}

/// The pieces of the MFM text `raw` for the custom emojis `known` and the
/// Unicode-emoji matches `spans` (see `mfm_pieces`); `instance_host` is the
/// host of the instance that the text comes from, `None` for the local one.
pub fn mfm_pieces_of(
    raw: &str,
    known: &[(String, String)],
    spans: &[(usize, usize)],
    instance_host: Option<&str>,
    local_instance: &str,
) -> (out: Vec<MfmPiece>)
    requires
        valid_char_spans(raw@, spans@),
    ensures
        piece_views(out@) == mfm_pieces(
            raw@,
            pair_views(known@),
            spans@,
            instance_suffix(
                match instance_host {
                    Some(h) => Some(h@),
                    None => None,
                },
            ),
            local_instance@,
        ),
{
    let rc = chars_of(raw);
    let mut toks = known_tokens_of(rc.as_slice(), known);
    let mut uni = emoji_tokens_of(rc.as_slice(), spans, local_instance);
    let ghost kt = token_views(toks@);
    let ghost ut = token_views(uni@);
    toks.append(&mut uni);
    proof {
        assert(token_views(toks@) =~= kt + ut);
        lemma_known_tokens_fit(rc@, pair_views(known@));
        lemma_emoji_tokens_fit(rc@, spans@, local_instance@);
        assert(tokens_fit(rc@, kt + ut)) by {
            assert forall|k: int| 0 <= k < (kt + ut).len() implies token_fits(rc@, #[trigger] (kt + ut)[k]) by {
                if k >= kt.len() {
                    assert((kt + ut)[k] == ut[k - kt.len()]);
                }
            }
        }
        lemma_sort_keeps_fit(rc@, kt + ut);
    }
    let sorted = sort_tokens(toks);
    let suffix = match instance_host {
        Some(h) => concat_str("@", h),
        None => String::new(),
    };
    proof {
        reveal_strlit("@");
        let sv = token_views(sorted@);
        assert forall|k: int| 0 <= k < sorted@.len() implies sorted@[k].start + sorted@[k].len <= rc@.len()
            && sorted@[k].id@ != seq![':'] by {
            assert(token_fits(rc@, sv[k]));
        }
    }
    let out = pieces_of(rc.as_slice(), &sorted, suffix.as_str());
    proof {
        assert(suffix@ =~= instance_suffix(
            match instance_host {
                Some(h) => Some(h@),
                None => None,
            },
        ));
    }
    out
}

/// The byte ranges of the successive matches of the regular expression
/// `\p{Emoji}` (one character with the Unicode Emoji property) in `text`,
/// as `regex` finds them.
pub uninterp spec fn emoji_regex_spans(text: Seq<char>) -> Seq<(usize, usize)>;

/// `regex::Regex::find_iter` with the pattern `\p{Emoji}`: the byte ranges
/// of the successive non-overlapping matches in `text`. The pattern is one
/// character class, so each match holds exactly one character, and `regex`
/// places match bounds on character boundaries.
#[verifier::external_body]
fn find_emoji_spans(text: &str) -> (spans: Vec<(usize, usize)>)
    ensures
        spans@ == emoji_regex_spans(text@),
        valid_char_spans(text@, spans@),
{
    let re = regex::Regex::new(r"\p{Emoji}").unwrap();
    re.find_iter(text).map(|m| (m.start(), m.end())).collect()
}

/// The custom emojis that MFM text uses: those of the local instance for
/// local text, else those given with the text (none when none were given).
pub open spec fn chosen_emojis(
    known_emojis: Option<Seq<(String, String)>>,
    instance_host: Option<Seq<char>>,
    local_emojis: Seq<(String, String)>,
) -> Seq<(Seq<char>, Seq<char>)> {
    if instance_host is None {
        pair_views(local_emojis)
    } else {
        match known_emojis {
            Some(k) => pair_views(k),
            None => seq![],
        }
    }
}

/// The value of an optional string slice.
pub open spec fn opt_view(s: Option<&str>) -> Option<Seq<char>> {
    match s {
        Some(h) => Some(h@),
        None => None,
    }
}

/// The value of an optional list of pairs.
pub open spec fn opt_pairs(s: Option<&[(String, String)]>) -> Option<Seq<(String, String)>> {
    match s {
        Some(k) => Some(k@),
        None => None,
    }
}

/// How the MFM text `raw` renders: text and emoji pieces. The emoji lists
/// pair each name with the address of its image; they are read from maps,
/// so no name occurs twice, and their order is the order in which the map
/// is walked (it decides between emojis that start at the same place).
/// `known_emojis` are the custom emojis given with the text, `instance_host` the host of
/// the instance it comes from (`None` for the local instance, whose own
/// emojis `local_emojis` are used then), and `local_instance` the address
/// of the local instance, which serves the Twemoji images.
pub fn mfm_plan(
    raw: &str,
    known_emojis: Option<&[(String, String)]>,
    instance_host: Option<&str>,
    local_emojis: &[(String, String)],
    local_instance: &str,
) -> (out: Vec<MfmPiece>)
    ensures
        piece_views(out@) == mfm_pieces(
            raw@,
            chosen_emojis(opt_pairs(known_emojis), opt_view(instance_host), local_emojis@),
            emoji_regex_spans(raw@),
            instance_suffix(opt_view(instance_host)),
            local_instance@,
        ),
{
    let known: &[(String, String)] = if instance_host.is_none() {
        local_emojis
    } else {
        match known_emojis {
            Some(k) => k,
            None => &[],
        }
    };
    proof {
        let e: Seq<(String, String)> = seq![];
        assert(pair_views(e) =~= seq![]);
    }
    let spans = find_emoji_spans(raw);
    mfm_pieces_of(raw, known, spans.as_slice(), instance_host, local_instance)
}

/// The raw text that a sequence of pieces stands for: each text piece as it
/// is, each emoji piece as the characters of `r` it replaced.
pub open spec fn spell(r: Seq<char>, pieces: Seq<PieceView>) -> Seq<char>
    decreases pieces.len(),
{
    if pieces.len() == 0 {
        seq![]
    } else {
        let head = match pieces[0] {
            PieceView::Text(t) => t,
            PieceView::Emoji { start, end, .. } => r.subrange(start, end),
        };
        head + spell(r, pieces.drop_first())
    }
}

/// Whether the tokens `toks`, in their order, lie one after another in `r`
/// from `offset` on, without overlapping.
pub open spec fn tokens_in_sequence(r: Seq<char>, toks: Seq<TokenView>, offset: int) -> bool {
    &&& 0 <= offset <= r.len()
    &&& toks.len() > 0 ==> offset <= toks[0].start
    &&& forall|k: int| 0 <= k < toks.len() - 1 ==> #[trigger] toks[k].start + toks[k].len <= toks[k + 1].start
    &&& forall|k: int| 0 <= k < toks.len() ==> 0 <= #[trigger] toks[k].len && toks[k].start + toks[k].len <= r.len()
}

proof fn lemma_spell_concat(r: Seq<char>, a: Seq<PieceView>, b: Seq<PieceView>)
    ensures
        spell(r, a + b) == spell(r, a) + spell(r, b),
    decreases a.len(),
{
    if a.len() > 0 {
        assert((a + b).drop_first() =~= a.drop_first() + b);
        lemma_spell_concat(r, a.drop_first(), b);
        assert((a + b)[0] == a[0]);
        assert(spell(r, a + b) =~= spell(r, a) + spell(r, b));
    } else {
        assert(a + b =~= b);
    }
}

proof fn lemma_pieces_spell(r: Seq<char>, toks: Seq<TokenView>, offset: int, suffix: Seq<char>)
    requires
        tokens_in_sequence(r, toks, offset),
    ensures
        spell(r, pieces_from(r, toks, offset, suffix)) == r.subrange(offset, r.len() as int),
    decreases toks.len(),
{
    if toks.len() == 0 {
        if offset < r.len() {
            let ps = seq![PieceView::Text(r.subrange(offset, r.len() as int))];
            assert(spell(r, ps.drop_first()) == Seq::<char>::empty());
            assert(spell(r, ps) =~= r.subrange(offset, r.len() as int));
        } else {
            assert(r.subrange(offset, r.len() as int) =~= Seq::<char>::empty());
        }
    } else {
        let t = toks[0];
        let rest = toks.drop_first();
        assert(tokens_in_sequence(r, rest, t.start + t.len)) by {
            assert forall|k: int| 0 <= k < rest.len() - 1 implies #[trigger] rest[k].start + rest[k].len <= rest[k + 1].start by {
                assert(rest[k] == toks[k + 1] && rest[k + 1] == toks[k + 2]);
            }
            assert forall|k: int| 0 <= k < rest.len() implies 0 <= #[trigger] rest[k].len && rest[k].start + rest[k].len <= r.len() by {
                assert(rest[k] == toks[k + 1]);
            }
            if rest.len() > 0 {
                assert(rest[0] == toks[1]);
            }
        }
        lemma_pieces_spell(r, rest, t.start + t.len, suffix);
        let before = if offset < t.start {
            seq![PieceView::Text(r.subrange(offset, t.start))]
        } else {
            seq![]
        };
        let e = seq![
            PieceView::Emoji {
                id: unique_emoji_id(t.id, suffix),
                url: t.url,
                start: t.start,
                end: t.start + t.len,
            },
        ];
        let tail = pieces_from(r, rest, t.start + t.len, suffix);
        lemma_spell_concat(r, before + e, tail);
        lemma_spell_concat(r, before, e);
        assert(spell(r, e.drop_first()) == Seq::<char>::empty());
        assert(spell(r, e) =~= r.subrange(t.start, t.start + t.len));
        if offset < t.start {
            assert(spell(r, before.drop_first()) == Seq::<char>::empty());
            assert(spell(r, before) =~= r.subrange(offset, t.start));
        } else {
            assert(spell(r, before) =~= Seq::<char>::empty());
        }
        assert(r.subrange(offset, r.len() as int) =~= spell(r, before) + r.subrange(
            t.start,
            t.start + t.len,
        ) + r.subrange(t.start + t.len, r.len() as int));
    }
}

proof fn lemma_pieces_text_nonempty(r: Seq<char>, toks: Seq<TokenView>, offset: int, suffix: Seq<char>)
    requires
        0 <= offset,
        tokens_fit(r, toks),
    ensures
        forall|k: int|
            0 <= k < pieces_from(r, toks, offset, suffix).len() ==> (#[trigger] pieces_from(
                r,
                toks,
                offset,
                suffix,
            )[k] matches PieceView::Text(t) ==> t.len() > 0),
    decreases toks.len(),
{
    let ps = pieces_from(r, toks, offset, suffix);
    if toks.len() > 0 {
        let t = toks[0];
        assert(token_fits(r, toks[0]));
        assert(tokens_fit(r, toks.drop_first())) by {
            assert forall|k: int| 0 <= k < toks.drop_first().len() implies token_fits(r, #[trigger] toks.drop_first()[k]) by {
                assert(toks.drop_first()[k] == toks[k + 1]);
            }
        }
        lemma_pieces_text_nonempty(r, toks.drop_first(), t.start + t.len, suffix);
        let tail = pieces_from(r, toks.drop_first(), t.start + t.len, suffix);
        let nb: int = if offset < t.start { 1 } else { 0 };
        assert forall|k: int| 0 <= k < ps.len() implies (#[trigger] ps[k] matches PieceView::Text(x) ==> x.len() > 0) by {
            if k > nb {
                assert(ps[k] == tail[k - nb - 1]);
            }
        }
    }
}

/// Law: MFM rendering never produces an empty text piece.
pub proof fn law_mfm_text_pieces_nonempty(
    r: Seq<char>,
    known: Seq<(Seq<char>, Seq<char>)>,
    spans: Seq<(usize, usize)>,
    suffix: Seq<char>,
    local_instance: Seq<char>,
)
    requires
        valid_char_spans(r, spans),
    ensures
        forall|k: int|
            0 <= k < mfm_pieces(r, known, spans, suffix, local_instance).len() ==> (
            #[trigger] mfm_pieces(r, known, spans, suffix, local_instance)[k] matches PieceView::Text(
                t,
            ) ==> t.len() > 0),
{
    let kt = known_tokens(r, known);
    let ut = emoji_tokens(r, spans, local_instance);
    lemma_known_tokens_fit(r, known);
    lemma_emoji_tokens_fit(r, spans, local_instance);
    assert(tokens_fit(r, kt + ut)) by {
        assert forall|k: int| 0 <= k < (kt + ut).len() implies token_fits(r, #[trigger] (kt + ut)[k]) by {
            if k >= kt.len() {
                assert((kt + ut)[k] == ut[k - kt.len()]);
            }
        }
    }
    lemma_sort_keeps_fit(r, kt + ut);
    lemma_pieces_text_nonempty(r, sort_by_start(kt + ut), 0, suffix);
}

/// Law: when the emojis found in MFM text, taken in order of position, do
/// not overlap, rendering loses and repeats nothing: the text pieces and the
/// text that each emoji piece replaced spell out the raw text exactly.
pub proof fn law_mfm_spells_raw_text(
    r: Seq<char>,
    known: Seq<(Seq<char>, Seq<char>)>,
    spans: Seq<(usize, usize)>,
    suffix: Seq<char>,
    local_instance: Seq<char>,
)
    requires
        valid_char_spans(r, spans),
        ({
            let toks = sort_by_start(known_tokens(r, known) + emoji_tokens(r, spans, local_instance));
            forall|k: int| 0 <= k < toks.len() - 1 ==> #[trigger] toks[k].start + toks[k].len <= toks[k + 1].start
        }),
    ensures
        spell(r, mfm_pieces(r, known, spans, suffix, local_instance)) == r,
{
    let kt = known_tokens(r, known);
    let ut = emoji_tokens(r, spans, local_instance);
    lemma_known_tokens_fit(r, known);
    lemma_emoji_tokens_fit(r, spans, local_instance);
    assert(tokens_fit(r, kt + ut)) by {
        assert forall|k: int| 0 <= k < (kt + ut).len() implies token_fits(r, #[trigger] (kt + ut)[k]) by {
            if k >= kt.len() {
                assert((kt + ut)[k] == ut[k - kt.len()]);
            }
        }
    }
    lemma_sort_keeps_fit(r, kt + ut);
    let toks = sort_by_start(kt + ut);
    assert(tokens_in_sequence(r, toks, 0)) by {
        assert forall|k: int| 0 <= k < toks.len() implies 0 <= #[trigger] toks[k].len && toks[k].start + toks[k].len <= r.len() by {
            assert(token_fits(r, toks[k]));
        }
        if toks.len() > 0 {
            assert(token_fits(r, toks[0]));
        }
    }
    lemma_pieces_spell(r, toks, 0, suffix);
    assert(r.subrange(0, r.len() as int) =~= r);
}

/// Law: text in which no custom emoji is looked for and no Unicode emoji is
/// found renders as itself: one text piece holding all of it, nothing for
/// empty text.
pub proof fn law_mfm_plain_text(r: Seq<char>, suffix: Seq<char>, local_instance: Seq<char>)
    ensures
        mfm_pieces(r, seq![], seq![], suffix, local_instance) == if r.len() > 0 {
            seq![PieceView::Text(r)]
        } else {
            seq![]
        },
{
    let none: Seq<TokenView> = seq![];
    assert(known_tokens(r, seq![]) + emoji_tokens(r, seq![], local_instance) =~= none);
    assert(sort_by_start(none) == none);
    assert(r.subrange(0, r.len() as int) =~= r);
}

/// The character ranges (start, end) of the emoji pieces among `ps`, in
/// order.
pub open spec fn emoji_ranges(ps: Seq<PieceView>) -> Seq<(int, int)>
    decreases ps.len(),
{
    if ps.len() == 0 {
        seq![]
    } else {
        let rest = emoji_ranges(ps.drop_first());
        match ps[0] {
            PieceView::Emoji { start, end, .. } => seq![(start, end)] + rest,
            PieceView::Text(_) => rest,
        }
    }
}

/// The character ranges of tokens, in order.
pub open spec fn token_ranges(toks: Seq<TokenView>) -> Seq<(int, int)> {
    toks.map_values(|t: TokenView| (t.start, t.start + t.len))
}

proof fn lemma_emoji_ranges_concat(a: Seq<PieceView>, b: Seq<PieceView>)
    ensures
        emoji_ranges(a + b) == emoji_ranges(a) + emoji_ranges(b),
    decreases a.len(),
{
    if a.len() == 0 {
        assert(a + b =~= b);
        assert(emoji_ranges(a) + emoji_ranges(b) =~= emoji_ranges(b));
    } else {
        assert((a + b).drop_first() =~= a.drop_first() + b);
        assert((a + b)[0] == a[0]);
        lemma_emoji_ranges_concat(a.drop_first(), b);
        assert(emoji_ranges(a + b) =~= emoji_ranges(a) + emoji_ranges(b));
    }
}

proof fn lemma_pieces_emoji_ranges(r: Seq<char>, toks: Seq<TokenView>, offset: int, suffix: Seq<char>)
    ensures
        emoji_ranges(pieces_from(r, toks, offset, suffix)) == token_ranges(toks),
    decreases toks.len(),
{
    if toks.len() == 0 {
        if offset < r.len() {
            let one = seq![PieceView::Text(r.subrange(offset, r.len() as int))];
            assert(one.drop_first() =~= Seq::<PieceView>::empty());
            assert(emoji_ranges(one.drop_first()) =~= Seq::<(int, int)>::empty());
            assert(emoji_ranges(one) =~= Seq::<(int, int)>::empty());
        }
        assert(token_ranges(toks) =~= Seq::<(int, int)>::empty());
    } else {
        let t = toks[0];
        let before = if offset < t.start {
            seq![PieceView::Text(r.subrange(offset, t.start))]
        } else {
            seq![]
        };
        let e = seq![
            PieceView::Emoji {
                id: unique_emoji_id(t.id, suffix),
                url: t.url,
                start: t.start,
                end: t.start + t.len,
            },
        ];
        let rest = pieces_from(r, toks.drop_first(), t.start + t.len, suffix);
        lemma_pieces_emoji_ranges(r, toks.drop_first(), t.start + t.len, suffix);
        lemma_emoji_ranges_concat(before + e, rest);
        lemma_emoji_ranges_concat(before, e);
        assert(e.drop_first() =~= Seq::<PieceView>::empty());
        assert(emoji_ranges(e.drop_first()) =~= Seq::<(int, int)>::empty());
        assert(emoji_ranges(e) =~= seq![(t.start, t.start + t.len)]);
        if offset < t.start {
            assert(before.drop_first() =~= Seq::<PieceView>::empty());
            assert(emoji_ranges(before.drop_first()) =~= Seq::<(int, int)>::empty());
        }
        assert(emoji_ranges(before) =~= Seq::<(int, int)>::empty());
        assert(token_ranges(toks) =~= seq![(t.start, t.start + t.len)] + token_ranges(
            toks.drop_first(),
        ));
    }
}

/// Law: the emoji pieces of MFM text come in the order of their positions
/// in the text, each standing for the range of one emoji found there.
pub proof fn law_mfm_emojis_in_text_order(
    r: Seq<char>,
    known: Seq<(Seq<char>, Seq<char>)>,
    spans: Seq<(usize, usize)>,
    suffix: Seq<char>,
    local_instance: Seq<char>,
)
    ensures
        emoji_ranges(mfm_pieces(r, known, spans, suffix, local_instance)) == token_ranges(
            sort_by_start(known_tokens(r, known) + emoji_tokens(r, spans, local_instance)),
        ),
        forall|i: int, j: int|
            0 <= i < j < emoji_ranges(mfm_pieces(r, known, spans, suffix, local_instance)).len()
                ==> emoji_ranges(mfm_pieces(r, known, spans, suffix, local_instance))[i].0
                <= emoji_ranges(mfm_pieces(r, known, spans, suffix, local_instance))[j].0,
{
    let toks = sort_by_start(known_tokens(r, known) + emoji_tokens(r, spans, local_instance));
    lemma_sort_by_start(known_tokens(r, known) + emoji_tokens(r, spans, local_instance));
    lemma_pieces_emoji_ranges(r, toks, 0, suffix);
    let er = emoji_ranges(mfm_pieces(r, known, spans, suffix, local_instance));
    assert forall|i: int, j: int| 0 <= i < j < er.len() implies er[i].0 <= er[j].0 by {
        assert(er[i].0 == toks[i].start && er[j].0 == toks[j].start);
    }
}

/// Law: text of the local instance renders with the local instance's own
/// emojis whatever emojis are given with it: two texts that differ only in
/// the given emojis render alike.
pub proof fn law_mfm_local_text_ignores_given_emojis(
    raw: Seq<char>,
    given1: Option<Seq<(String, String)>>,
    given2: Option<Seq<(String, String)>>,
    local_emojis: Seq<(String, String)>,
    spans: Seq<(usize, usize)>,
    local_instance: Seq<char>,
)
    ensures
        chosen_emojis(given1, None, local_emojis) == pair_views(local_emojis),
        mfm_pieces(
            raw,
            chosen_emojis(given1, None, local_emojis),
            spans,
            instance_suffix(None),
            local_instance,
        ) == mfm_pieces(
            raw,
            chosen_emojis(given2, None, local_emojis),
            spans,
            instance_suffix(None),
            local_instance,
        ),
{
}

proof fn lemma_key_tokens_cover(r: Seq<char>, p: Seq<char>, url: Seq<char>, from: int, q: int)
    requires
        p.len() > 0,
        0 <= from <= q,
        occurs_at(r, p, q),
    ensures
        exists|k: int|
            0 <= k < key_tokens(r, p, url, from).len() && #[trigger] key_tokens(r, p, url, from)[k].start
                <= q < key_tokens(r, p, url, from)[k].start + key_tokens(r, p, url, from)[k].len,
    decreases r.len() + 1 - from,
{
    if find_from(r, p, from) is None {
        crate::text::lemma_find_from_none(r, p, from);
        assert(false);
    }
    crate::text::lemma_find_from_some(r, p, from);
    let i = find_from(r, p, from)->0;
    let toks = key_tokens(r, p, url, from);
    let rest = key_tokens(r, p, url, i + p.len());
    assert(i <= q);
    assert(toks == seq![TokenView { start: i, len: p.len() as int, id: p, url: url }] + rest);
    if q < i + p.len() {
        assert(toks[0].start <= q < toks[0].start + toks[0].len);
    } else {
        lemma_key_tokens_cover(r, p, url, i + p.len(), q);
        let k = choose|k: int|
            0 <= k < rest.len() && #[trigger] rest[k].start <= q < rest[k].start + rest[k].len;
        assert(toks[k + 1] == rest[k]);
    }
}

proof fn lemma_known_tokens_cover(r: Seq<char>, known: Seq<(Seq<char>, Seq<char>)>, m: int, q: int)
    requires
        0 <= m < known.len(),
        0 <= q,
        occurs_at(r, pattern_of(known[m].0), q),
    ensures
        exists|k: int|
            0 <= k < known_tokens(r, known).len() && #[trigger] known_tokens(r, known)[k].start <= q
                < known_tokens(r, known)[k].start + known_tokens(r, known)[k].len,
    decreases known.len(),
{
    let a = known_tokens(r, known.drop_last());
    let b = key_tokens(r, pattern_of(known.last().0), known.last().1, 0);
    let all = known_tokens(r, known);
    assert(all == a + b);
    if m == known.len() - 1 {
        lemma_key_tokens_cover(r, pattern_of(known.last().0), known.last().1, 0, q);
        let k = choose|k: int| 0 <= k < b.len() && #[trigger] b[k].start <= q < b[k].start + b[k].len;
        assert(all[a.len() + k] == b[k]);
    } else {
        assert(known.drop_last()[m] == known[m]);
        lemma_known_tokens_cover(r, known.drop_last(), m, q);
        let k = choose|k: int| 0 <= k < a.len() && #[trigger] a[k].start <= q < a[k].start + a[k].len;
        assert(all[k] == a[k]);
    }
}

/// Law: no occurrence of a known custom emoji is left as plain text: for
/// every known name and every place where `:name:` is written in the raw
/// text, some emoji piece starts at or before that place and ends after it
/// (the emoji written there, or one it overlaps).
pub proof fn law_mfm_known_emojis_never_left_as_text(
    r: Seq<char>,
    known: Seq<(Seq<char>, Seq<char>)>,
    spans: Seq<(usize, usize)>,
    suffix: Seq<char>,
    local_instance: Seq<char>,
    m: int,
    q: int,
)
    requires
        0 <= m < known.len(),
        0 <= q,
        q + known[m].0.len() + 2 <= r.len(),
        r.subrange(q, q + known[m].0.len() + 2) == seq![':'] + known[m].0 + seq![':'],
    ensures
        exists|k: int|
            0 <= k < emoji_ranges(mfm_pieces(r, known, spans, suffix, local_instance)).len()
                && #[trigger] emoji_ranges(mfm_pieces(r, known, spans, suffix, local_instance))[k].0
                <= q < emoji_ranges(mfm_pieces(r, known, spans, suffix, local_instance))[k].1,
{
    broadcast use vstd::seq_lib::group_to_multiset_ensures;

    assert(occurs_at(r, pattern_of(known[m].0), q));
    lemma_known_tokens_cover(r, known, m, q);
    let kt = known_tokens(r, known);
    let ut = emoji_tokens(r, spans, local_instance);
    let all = kt + ut;
    let k0 = choose|k: int| 0 <= k < kt.len() && #[trigger] kt[k].start <= q < kt[k].start + kt[k].len;
    let t = kt[k0];
    assert(all[k0] == t);
    assert(all.contains(t));
    let sorted = sort_by_start(all);
    lemma_sort_by_start(all);
    assert(all.to_multiset().count(t) > 0);
    assert(sorted.contains(t));
    let j = choose|j: int| 0 <= j < sorted.len() && sorted[j] == t;
    law_mfm_emojis_in_text_order(r, known, spans, suffix, local_instance);
    let er = emoji_ranges(mfm_pieces(r, known, spans, suffix, local_instance));
    assert(er == token_ranges(sorted));
    assert(er.len() == sorted.len());
    assert(er[j] == (t.start, t.start + t.len));
    assert(0 <= j < er.len() && er[j].0 <= q < er[j].1);
}

/// Whether the emoji piece `p` is the custom emoji `known[m]` written as
/// `:name:` at its place in `r`, under the name followed by `suffix` and
/// with the address given for that name.
pub open spec fn is_custom_piece(
    r: Seq<char>,
    known: Seq<(Seq<char>, Seq<char>)>,
    suffix: Seq<char>,
    p: PieceView,
    m: int,
) -> bool {
    &&& 0 <= m < known.len()
    &&& p matches PieceView::Emoji { id, url, start, end }
    &&& 0 <= start && end == start + known[m].0.len() + 2 && end <= r.len()
    &&& r.subrange(start, end) == seq![':'] + known[m].0 + seq![':']
    &&& id == known[m].0 + suffix
    &&& url == known[m].1
}

/// Whether the emoji piece `p` is the Unicode emoji of the one character of
/// `r` at its place, under that character's identifier (whatever the
/// instance) and with its Twemoji image on `local_instance`.
pub open spec fn is_unicode_piece(r: Seq<char>, local_instance: Seq<char>, p: PieceView) -> bool {
    &&& p matches PieceView::Emoji { id, url, start, end }
    &&& 0 <= start < r.len() && end == start + 1
    &&& id == emoji_id(r[start])
    &&& url == twemoji_url(local_instance, emoji_id(r[start]))
}

spec fn custom_token(r: Seq<char>, known: Seq<(Seq<char>, Seq<char>)>, t: TokenView) -> bool {
    exists|m: int|
        0 <= m < known.len() && t.id == pattern_of(#[trigger] known[m].0) && t.url == known[m].1
            && t.len == t.id.len() && occurs_at(r, t.id, t.start)
}

spec fn unicode_token(r: Seq<char>, local_instance: Seq<char>, t: TokenView) -> bool {
    &&& 0 <= t.start < r.len()
    &&& t.len == 1
    &&& t.id == emoji_id(r[t.start])
    &&& t.url == twemoji_url(local_instance, t.id)
}

proof fn lemma_key_tokens_origin(r: Seq<char>, p: Seq<char>, url: Seq<char>, from: int)
    ensures
        forall|k: int|
            0 <= k < key_tokens(r, p, url, from).len() ==> {
                let t = #[trigger] key_tokens(r, p, url, from)[k];
                t.id == p && t.url == url && t.len == p.len() && occurs_at(r, p, t.start)
            },
    decreases r.len() + 1 - from,
{
    if p.len() > 0 && from >= 0 {
        if let Some(i) = find_from(r, p, from) {
            crate::text::lemma_find_from_some(r, p, from);
            lemma_key_tokens_origin(r, p, url, i + p.len());
            let s = key_tokens(r, p, url, from);
            let rest = key_tokens(r, p, url, i + p.len());
            assert forall|k: int| 0 <= k < s.len() implies {
                let t = #[trigger] s[k];
                t.id == p && t.url == url && t.len == p.len() && occurs_at(r, p, t.start)
            } by {
                if k > 0 {
                    assert(s[k] == rest[k - 1]);
                }
            }
        }
    }
}

proof fn lemma_known_tokens_origin(r: Seq<char>, known: Seq<(Seq<char>, Seq<char>)>)
    ensures
        forall|k: int|
            0 <= k < known_tokens(r, known).len() ==> custom_token(
                r,
                known,
                #[trigger] known_tokens(r, known)[k],
            ),
    decreases known.len(),
{
    if known.len() > 0 {
        let init = known.drop_last();
        lemma_known_tokens_origin(r, init);
        let m = known.len() - 1;
        let p = pattern_of(known.last().0);
        lemma_key_tokens_origin(r, p, known.last().1, 0);
        let a = known_tokens(r, init);
        let b = key_tokens(r, p, known.last().1, 0);
        let all = known_tokens(r, known);
        assert(all == a + b);
        assert forall|k: int| 0 <= k < all.len() implies custom_token(r, known, #[trigger] all[k]) by {
            if k < a.len() {
                assert(all[k] == a[k]);
                assert(custom_token(r, init, a[k]));
                let mi = choose|mi: int|
                    0 <= mi < init.len() && a[k].id == pattern_of(#[trigger] init[mi].0) && a[k].url
                        == init[mi].1 && a[k].len == a[k].id.len() && occurs_at(r, a[k].id, a[k].start);
                assert(init[mi] == known[mi]);
            } else {
                assert(all[k] == b[k - a.len()]);
                assert(known[m] == known.last());
            }
        }
    }
}

proof fn lemma_emoji_tokens_origin(r: Seq<char>, spans: Seq<(usize, usize)>, local: Seq<char>)
    requires
        valid_char_spans(r, spans),
    ensures
        forall|k: int|
            0 <= k < emoji_tokens(r, spans, local).len() ==> unicode_token(
                r,
                local,
                #[trigger] emoji_tokens(r, spans, local)[k],
            ),
    decreases spans.len(),
{
    if spans.len() > 0 {
        let init = spans.drop_last();
        assert(valid_char_spans(r, init)) by {
            assert forall|k: int| 0 <= k < init.len() implies span_is_char(r, #[trigger] init[k]) by {
                assert(init[k] == spans[k]);
                assert(span_is_char(r, spans[k]));
            }
            assert forall|k: int| 0 <= k < init.len() - 1 implies #[trigger] init[k].1 <= init[k + 1].0 by {
                assert(init[k] == spans[k] && init[k + 1] == spans[k + 1]);
            }
        }
        lemma_emoji_tokens_origin(r, init, local);
        let sp = spans.last();
        assert(span_is_char(r, spans[spans.len() - 1]));
        let rest = emoji_tokens(r, init, local);
        let all = emoji_tokens(r, spans, local);
        assert forall|k: int| 0 <= k < all.len() implies unicode_token(r, local, #[trigger] all[k]) by {
            if k < rest.len() {
                assert(all[k] == rest[k]);
            }
        }
    }
}

proof fn lemma_pieces_from_emoji(r: Seq<char>, toks: Seq<TokenView>, offset: int, suffix: Seq<char>)
    ensures
        forall|k: int|
            0 <= k < pieces_from(r, toks, offset, suffix).len() && (#[trigger] pieces_from(
                r,
                toks,
                offset,
                suffix,
            )[k]) is Emoji ==> (exists|j: int|
                0 <= j < toks.len() && pieces_from(r, toks, offset, suffix)[k] == (PieceView::Emoji {
                    id: unique_emoji_id(#[trigger] toks[j].id, suffix),
                    url: toks[j].url,
                    start: toks[j].start,
                    end: toks[j].start + toks[j].len,
                })),
    decreases toks.len(),
{
    let ps = pieces_from(r, toks, offset, suffix);
    if toks.len() > 0 {
        let t = toks[0];
        let rest = toks.drop_first();
        lemma_pieces_from_emoji(r, rest, t.start + t.len, suffix);
        let tail = pieces_from(r, rest, t.start + t.len, suffix);
        let nb: int = if offset < t.start { 1 } else { 0 };
        assert forall|k: int| 0 <= k < ps.len() && (#[trigger] ps[k]) is Emoji implies exists|j: int|
            0 <= j < toks.len() && ps[k] == PieceView::Emoji {
                id: unique_emoji_id(#[trigger] toks[j].id, suffix),
                url: toks[j].url,
                start: toks[j].start,
                end: toks[j].start + toks[j].len,
            } by {
            if k == nb {
                assert(toks[0].id == t.id);
            } else if k > nb {
                assert(ps[k] == tail[k - nb - 1]);
                let j = choose|j: int|
                    0 <= j < rest.len() && tail[k - nb - 1] == PieceView::Emoji {
                        id: unique_emoji_id(#[trigger] rest[j].id, suffix),
                        url: rest[j].url,
                        start: rest[j].start,
                        end: rest[j].start + rest[j].len,
                    };
                assert(rest[j] == toks[j + 1]);
            }
        }
    } else {
        assert forall|k: int| 0 <= k < ps.len() implies !((#[trigger] ps[k]) is Emoji) by {}
    }
}

proof fn lemma_emoji_id_no_leading_colon(c: char)
    ensures
        !has_prefix(emoji_id(c), seq![':']),
{
    let d = crate::emoji::be_bytes(c as u32);
    let h = crate::emoji::hex_lower(d);
    lemma_hex_lower_no_colon(d);
    let z = crate::emoji::leading_zeros(h) as int;
    crate::emoji::lemma_leading_zeros_bound(h);
    if has_prefix(emoji_id(c), seq![':']) {
        assert(emoji_id(c).take(1)[0] == emoji_id(c)[0]);
        assert(emoji_id(c)[0] == h[z]);
        assert(hex_lower_len(d) == h.len());
        assert(false);
    }
}

/// Law: every emoji piece of MFM text is one of two kinds. Either it is a
/// custom emoji written `:name:` at its place, for a known name, drawn with
/// the address given for that name and cached under the name followed by
/// the instance suffix; or it is the one character at its place, drawn
/// with that character's Twemoji image and cached under the character's
/// own identifier, which the instance does not change.
pub proof fn law_mfm_emoji_pieces_are_written_emojis(
    r: Seq<char>,
    known: Seq<(Seq<char>, Seq<char>)>,
    spans: Seq<(usize, usize)>,
    suffix: Seq<char>,
    local_instance: Seq<char>,
)
    requires
        valid_char_spans(r, spans),
    ensures
        forall|k: int|
            0 <= k < mfm_pieces(r, known, spans, suffix, local_instance).len() && (#[trigger] mfm_pieces(
                r,
                known,
                spans,
                suffix,
                local_instance,
            )[k]) is Emoji ==> is_unicode_piece(
                r,
                local_instance,
                mfm_pieces(r, known, spans, suffix, local_instance)[k],
            ) || (exists|m: int|
                is_custom_piece(
                    r,
                    known,
                    suffix,
                    mfm_pieces(r, known, spans, suffix, local_instance)[k],
                    m,
                )),
{
    broadcast use vstd::seq_lib::group_to_multiset_ensures;

    let kt = known_tokens(r, known);
    let ut = emoji_tokens(r, spans, local_instance);
    let all = kt + ut;
    let sorted = sort_by_start(all);
    lemma_sort_by_start(all);
    lemma_known_tokens_origin(r, known);
    lemma_emoji_tokens_origin(r, spans, local_instance);
    lemma_pieces_from_emoji(r, sorted, 0, suffix);
    let ps = mfm_pieces(r, known, spans, suffix, local_instance);
    assert forall|k: int| 0 <= k < ps.len() && (#[trigger] ps[k]) is Emoji implies is_unicode_piece(
        r,
        local_instance,
        ps[k],
    ) || exists|m: int| is_custom_piece(r, known, suffix, ps[k], m) by {
        let j = choose|j: int|
            0 <= j < sorted.len() && ps[k] == PieceView::Emoji {
                id: unique_emoji_id(#[trigger] sorted[j].id, suffix),
                url: sorted[j].url,
                start: sorted[j].start,
                end: sorted[j].start + sorted[j].len,
            };
        let t = sorted[j];
        assert(sorted.to_multiset().count(t) > 0);
        assert(all.contains(t));
        let i = choose|i: int| 0 <= i < all.len() && all[i] == t;
        if i < kt.len() {
            assert(all[i] == kt[i]);
            assert(custom_token(r, known, kt[i]));
            let m = choose|m: int|
                0 <= m < known.len() && t.id == pattern_of(#[trigger] known[m].0) && t.url
                    == known[m].1 && t.len == t.id.len() && occurs_at(r, t.id, t.start);
            let name = known[m].0;
            assert(has_prefix(t.id, seq![':'])) by {
                assert(t.id.take(1) =~= seq![':']);
            }
            assert(has_suffix(t.id, seq![':'])) by {
                assert(t.id.skip(t.id.len() - 1) =~= seq![':']);
            }
            assert(t.id.subrange(1, t.id.len() - 1) =~= name);
            assert(is_custom_piece(r, known, suffix, ps[k], m));
        } else {
            assert(all[i] == ut[i - kt.len()]);
            assert(unicode_token(r, local_instance, ut[i - kt.len()]));
            lemma_emoji_id_no_leading_colon(r[t.start]);
            assert(is_unicode_piece(r, local_instance, ps[k]));
        }
    }
}

} // verus!
