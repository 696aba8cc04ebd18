use vstd::prelude::*;
use vstd::slice::slice_subrange;

use crate::emoji::{emoji_id, emoji_id_of, twemoji_url, twemoji_url_of};
use crate::mfm::pair_views;
use crate::text::{chars_of, contains_char, ends_with, has_suffix, string_from_chars};

verus! {

/// A reaction whose emoji was found: the emoji's identifier, the address of
/// its image, and how many users reacted with it.
pub struct ReactionEntry {
    pub id: String,
    pub url: String,
    pub count: u64,
}

/// The mathematical value of a `ReactionEntry`.
pub ghost struct ReactionView {
    pub id: Seq<char>,
    pub url: Seq<char>,
    pub count: int,
}

impl View for ReactionEntry {
    type V = ReactionView;

    open spec fn view(&self) -> ReactionView {
        ReactionView { id: self.id@, url: self.url@, count: self.count as int }
    }
}

/// The values of a sequence of reaction entries.
pub open spec fn reaction_views(s: Seq<ReactionEntry>) -> Seq<ReactionView> {
    s.map_values(|e: ReactionEntry| e@)
}

/// The values of a list of (reaction, count) pairs.
pub open spec fn count_views(s: Seq<(String, u64)>) -> Seq<(Seq<char>, u64)> {
    s.map_values(|p: (String, u64)| (p.0@, p.1))
}

/// The value stored under `key` in a list of (key, value) pairs: that of the
/// first pair with this key. The lists are read from maps, whose keys are
/// distinct (`keys_distinct`); there that pair is the only one with the key
/// (`law_lookup_finds_the_pair`).
pub open spec fn lookup(entries: Seq<(Seq<char>, Seq<char>)>, key: Seq<char>) -> Option<Seq<char>>
    decreases entries.len(),
{
    if entries.len() == 0 {
        None
    } else if entries[0].0 == key {
        Some(entries[0].1)
    } else {
        lookup(entries.drop_first(), key)
    }
}

/// `@.:`, the ending of a reaction with a custom emoji of the local instance.
pub open spec fn local_marker() -> Seq<char> {
    seq!['@', '.', ':']
}

/// Whether the reaction text `r` names a custom emoji of the local
/// instance (`:name@.:`).
pub open spec fn is_local_reaction(r: Seq<char>) -> bool {
    has_suffix(r, local_marker())
}

/// Whether the reaction text `r` names a custom emoji of a remote instance
/// (`:name@host:`).
pub open spec fn is_remote_reaction(r: Seq<char>) -> bool {
    !is_local_reaction(r) && r.contains('@')
}

/// Whether a reaction text can be read: a custom-emoji reaction must begin
/// with a one-byte character and, for a remote one, end with one, and be
/// long enough to hold its name (`:name@.:` has at least four characters,
/// `:name@host:` at least two).
pub open spec fn readable_reaction(r: Seq<char>) -> bool {
    if is_local_reaction(r) {
        r.len() >= 4 && (r[0] as u32) < 0x80
    } else if is_remote_reaction(r) {
        r.len() >= 2 && (r[0] as u32) < 0x80 && (r[r.len() - 1] as u32) < 0x80
    } else {
        true
    }
}

/// The emoji (identifier, image address) of the reaction text `r`, if it is
/// known: a local custom emoji `:name@.:` is looked up as `name` among
/// `local_emojis`, a remote one `:name@host:` as `name@host` among
/// `reaction_emojis`; any other reaction is a Unicode emoji, named by its
/// first character and drawn from Twemoji on `local_instance`.
pub open spec fn reaction_emoji(
    r: Seq<char>,
    local_emojis: Seq<(Seq<char>, Seq<char>)>,
    reaction_emojis: Seq<(Seq<char>, Seq<char>)>,
    local_instance: Seq<char>,
) -> Option<(Seq<char>, Seq<char>)> {
    if is_local_reaction(r) {
        let id = r.subrange(1, r.len() - 3);
        match lookup(local_emojis, id) {
            Some(u) => Some((id, u)),
            None => None,
        }
    } else if is_remote_reaction(r) {
        let id = r.subrange(1, r.len() - 1);
        match lookup(reaction_emojis, id) {
            Some(u) => Some((id, u)),
            None => None,
        }
    } else if r.len() == 0 {
        None
    } else {
        Some((emoji_id(r[0]), twemoji_url(local_instance, emoji_id(r[0]))))
    }
}

/// The reactions whose emoji is known, in the given order, each with its
/// emoji and count.
pub open spec fn resolved_reactions(
    reactions: Seq<(Seq<char>, u64)>,
    local_emojis: Seq<(Seq<char>, Seq<char>)>,
    reaction_emojis: Seq<(Seq<char>, Seq<char>)>,
    local_instance: Seq<char>,
) -> Seq<ReactionView>
    decreases reactions.len(),
{
    if reactions.len() == 0 {
        seq![]
    } else {
        let rest = resolved_reactions(
            reactions.drop_last(),
            local_emojis,
            reaction_emojis,
            local_instance,
        );
        let (r, c) = reactions.last();
        match reaction_emoji(r, local_emojis, reaction_emojis, local_instance) {
            Some((id, url)) => rest.push(ReactionView { id, url, count: c as int }),
            None => rest,
        }
    }
}

/// The total of the counts of `s`.
pub open spec fn total_count(s: Seq<ReactionView>) -> int
    decreases s.len(),
{
    if s.len() == 0 {
        0
    } else {
        total_count(s.drop_last()) + s.last().count
    }
}

/// Where an entry with count `c` goes in `sorted` (most first): after every
/// trailing entry with at least as many.
pub open spec fn insert_pos_desc(sorted: Seq<ReactionView>, c: int) -> int
    decreases sorted.len(),
{
    if sorted.len() == 0 || sorted.last().count >= c {
        sorted.len() as int
    } else {
        insert_pos_desc(sorted.drop_last(), c)
    }
}

/// The stable sort of `s` by count, most first: entries with equal counts
/// keep their relative order.
pub open spec fn sort_by_count_desc(s: Seq<ReactionView>) -> Seq<ReactionView>
    decreases s.len(),
{
    if s.len() == 0 {
        s
    } else {
        let sorted = sort_by_count_desc(s.drop_last());
        let p = insert_pos_desc(sorted, s.last().count);
        sorted.take(p) + seq![s.last()] + sorted.skip(p)
    }
}

/// The value stored under `key` in `entries` (see `lookup`).
fn lookup_of(entries: &[(String, String)], key: &String) -> (r: Option<String>)
    ensures
        r matches Some(v) ==> lookup(pair_views(entries@), key@) == Some(v@),
        r is None ==> lookup(pair_views(entries@), key@) is None,
{
    let ghost ev = pair_views(entries@);
    let mut i: usize = 0;
    assert(ev.skip(0) =~= ev);
    while i < entries.len()
        invariant
            i <= entries@.len(),
            ev == pair_views(entries@),
            lookup(ev, key@) == lookup(ev.skip(i as int), key@),
        decreases entries@.len() - i,
    {
        proof {
            assert(ev.skip(i as int)[0] == ev[i as int]);
            assert(ev.skip(i as int).drop_first() =~= ev.skip(i + 1));
        }
        if entries[i].0 == *key {
            return Some(entries[i].1.clone());
        }
        i = i + 1;
    }
    proof {
        assert(ev.skip(i as int) =~= Seq::<(Seq<char>, Seq<char>)>::empty());
    }
    None
}

/// The emoji of one reaction text (see `reaction_emoji`).
pub fn reaction_emoji_of(
    reaction: &str,
    local_emojis: &[(String, String)],
    reaction_emojis: &[(String, String)],
    local_instance: &str,
) -> (r: Option<(String, String)>)
    requires
        readable_reaction(reaction@),
    ensures
        r matches Some((id, url)) ==> reaction_emoji(
            reaction@,
            pair_views(local_emojis@),
            pair_views(reaction_emojis@),
            local_instance@,
        ) == Some((id@, url@)),
        r is None ==> reaction_emoji(
            reaction@,
            pair_views(local_emojis@),
            pair_views(reaction_emojis@),
            local_instance@,
        ) is None,
{
    let rc = chars_of(reaction);
    let marker: [char; 3] = ['@', '.', ':'];
    proof {
        assert(marker@ =~= local_marker());
    }
    if ends_with(rc.as_slice(), marker.as_slice()) {
        let id = string_from_chars(slice_subrange(rc.as_slice(), 1, rc.len() - 3));
        match lookup_of(local_emojis, &id) {
            Some(u) => Some((id, u)),
            None => None,
        }
    } else if contains_char(rc.as_slice(), '@') {
        let id = string_from_chars(slice_subrange(rc.as_slice(), 1, rc.len() - 1));
        match lookup_of(reaction_emojis, &id) {
            Some(u) => Some((id, u)),
            None => None,
        }
    } else if rc.len() == 0 {
        None
    } else {
        let id = emoji_id_of(rc[0]);
        let url = twemoji_url_of(local_instance, id.as_str());
        Some((id, url))
    }
}

/// Whether the reaction text `reaction` can be read (see
/// `readable_reaction`).
pub fn readable_reaction_of(reaction: &str) -> (b: bool)
    ensures
        b == readable_reaction(reaction@),
{
    let rc = chars_of(reaction);
    let marker: [char; 3] = ['@', '.', ':'];
    proof {
        assert(marker@ =~= local_marker());
    }
    if ends_with(rc.as_slice(), marker.as_slice()) {
        rc.len() >= 4 && (rc[0] as u32) < 0x80
    } else if contains_char(rc.as_slice(), '@') {
        rc.len() >= 2 && (rc[0] as u32) < 0x80 && (rc[rc.len() - 1] as u32) < 0x80
    } else {
        true
    }
}

/// Sorts entries stably by count, most first (see `sort_by_count_desc`).
fn sort_entries(v: Vec<ReactionEntry>) -> (res: Vec<ReactionEntry>)
    ensures
        reaction_views(res@) == sort_by_count_desc(reaction_views(v@)),
{
    let ghost orig = v@;
    let ghost ov = reaction_views(v@);
    let mut input = v;
    let mut res: Vec<ReactionEntry> = Vec::new();
    let ghost mut taken: int = 0;
    proof {
        assert(orig.skip(0) =~= orig);
        assert(ov.take(0) =~= Seq::<ReactionView>::empty());
    }
    while input.len() > 0
        invariant
            0 <= taken <= orig.len(),
            input@ == orig.skip(taken),
            reaction_views(res@) == sort_by_count_desc(ov.take(taken)),
            ov == reaction_views(orig),
        decreases input@.len(),
    {
        let e = input.remove(0);
        proof {
            assert(e == orig[taken]);
            assert(input@ =~= orig.skip(taken + 1));
        }
        let ghost sv = reaction_views(res@);
        let mut p = res.len();
        assert(sv.take(p as int) =~= sv);
        while p > 0 && res[p - 1].count < e.count
            invariant
                p <= res@.len(),
                sv == reaction_views(res@),
                insert_pos_desc(sv, e.count as int) == insert_pos_desc(sv.take(p as int), e.count as int),
            decreases p,
        {
            proof {
                assert(sv.take(p as int).drop_last() =~= sv.take(p - 1));
            }
            p = p - 1;
        }
        proof {
            if p > 0 {
                assert(sv.take(p as int).last() == sv[p - 1]);
            }
        }
        res.insert(p, e);
        proof {
            assert(reaction_views(res@) =~= sv.take(p as int) + seq![e@] + sv.skip(p as int));
            assert(ov.take(taken + 1).drop_last() =~= ov.take(taken));
            assert(ov.take(taken + 1).last() == e@);
            taken = taken + 1;
        }
    }
    proof {
        assert(ov.take(taken) =~= ov);
    }
    res
}

proof fn lemma_total_bound(s: Seq<ReactionView>)
    requires
        forall|k: int| 0 <= k < s.len() ==> 0 <= #[trigger] s[k].count <= u64::MAX,
    ensures
        0 <= total_count(s) <= s.len() * (u64::MAX as int),
    decreases s.len(),
{
    if s.len() > 0 {
        lemma_total_bound(s.drop_last());
        assert(s.last().count == s[s.len() - 1].count);
    }
}

proof fn lemma_resolved_len(
    reactions: Seq<(Seq<char>, u64)>,
    local_emojis: Seq<(Seq<char>, Seq<char>)>,
    reaction_emojis: Seq<(Seq<char>, Seq<char>)>,
    local_instance: Seq<char>,
)
    ensures
        resolved_reactions(reactions, local_emojis, reaction_emojis, local_instance).len()
            <= reactions.len(),
        forall|k: int|
            0 <= k < resolved_reactions(reactions, local_emojis, reaction_emojis, local_instance).len()
                ==> 0 <= #[trigger] resolved_reactions(
                reactions,
                local_emojis,
                reaction_emojis,
                local_instance,
            )[k].count <= u64::MAX,
    decreases reactions.len(),
{
    if reactions.len() > 0 {
        lemma_resolved_len(reactions.drop_last(), local_emojis, reaction_emojis, local_instance);
    }
}

/// The known emojis of a note's reactions, sorted stably by count (most
/// first), and the total count over them. `reactions` pairs each reaction
/// text with its count; `local_emojis` are the custom emojis of the local
/// instance and `reaction_emojis` those the note names from other
/// instances.
pub fn plan_reactions(
    reactions: &[(String, u64)],
    local_emojis: &[(String, String)],
    reaction_emojis: &[(String, String)],
    local_instance: &str,
) -> (out: (Vec<ReactionEntry>, u128))
    requires
        forall|k: int| 0 <= k < reactions@.len() ==> readable_reaction(#[trigger] reactions@[k].0@),
    ensures
        reaction_views(out.0@) == sort_by_count_desc(
            resolved_reactions(
                count_views(reactions@),
                pair_views(local_emojis@),
                pair_views(reaction_emojis@),
                local_instance@,
            ),
        ),
        out.1 == total_count(
            resolved_reactions(
                count_views(reactions@),
                pair_views(local_emojis@),
                pair_views(reaction_emojis@),
                local_instance@,
            ),
        ),
        out.1 == total_count(reaction_views(out.0@)),
        forall|i: int, j: int|
            0 <= i < j < out.0@.len() ==> out.0@[i].count >= out.0@[j].count,
{
    let ghost rv = count_views(reactions@);
    let ghost le = pair_views(local_emojis@);
    let ghost re = pair_views(reaction_emojis@);
    let mut found: Vec<ReactionEntry> = Vec::new();
    let mut all: u128 = 0;
    let mut k: usize = 0;
    proof {
        assert(rv.take(0) =~= Seq::<(Seq<char>, u64)>::empty());
    }
    while k < reactions.len()
        invariant
            k <= reactions@.len(),
            rv == count_views(reactions@),
            le == pair_views(local_emojis@),
            re == pair_views(reaction_emojis@),
            forall|m: int| 0 <= m < reactions@.len() ==> readable_reaction(#[trigger] reactions@[m].0@),
            reaction_views(found@) == resolved_reactions(rv.take(k as int), le, re, local_instance@),
            all == total_count(reaction_views(found@)),
        decreases reactions@.len() - k,
    {
        let ghost before = found@;
        proof {
            assert(readable_reaction(reactions@[k as int].0@));
            assert(rv.take(k + 1).drop_last() =~= rv.take(k as int));
            assert(rv.take(k + 1).last() == rv[k as int]);
            lemma_resolved_len(rv.take(k as int), le, re, local_instance@);
            lemma_total_bound(reaction_views(found@));
            assert(reaction_views(found@).len() <= k);
            assert(k * (u64::MAX as int) + (u64::MAX as int) <= u128::MAX) by (nonlinear_arith)
                requires
                    k <= usize::MAX,
            ;
        }
        match reaction_emoji_of(reactions[k].0.as_str(), local_emojis, reaction_emojis, local_instance) {
            Some((id, url)) => {
                let c = reactions[k].1;
                all = all + c as u128;
                found.push(ReactionEntry { id: id, url: url, count: c });
                proof {
                    assert(reaction_views(found@) =~= reaction_views(before).push(found@.last()@));
                    assert(reaction_views(found@).drop_last() =~= reaction_views(before));
                }
            },
            None => {},
        }
        k = k + 1;
    }
    proof {
        assert(rv.take(k as int) =~= rv);
    }
    let sorted = sort_entries(found);
    proof {
        law_reactions_sorted_by_count(reaction_views(found@));
        let sv = reaction_views(sorted@);
        assert forall|i: int, j: int| 0 <= i < j < sorted@.len() implies sorted@[i].count
            >= sorted@[j].count by {
            assert(sv[i].count == sorted@[i].count && sv[j].count == sorted@[j].count);
        }
    }
    (sorted, all)
}

proof fn lemma_total_concat(a: Seq<ReactionView>, b: Seq<ReactionView>)
    ensures
        total_count(a + b) == total_count(a) + total_count(b),
    decreases b.len(),
{
    if b.len() == 0 {
        assert(a + b =~= a);
    } else {
        assert((a + b).drop_last() =~= a + b.drop_last());
        lemma_total_concat(a, b.drop_last());
    }
}

proof fn lemma_insert_pos_desc_bounds(sorted: Seq<ReactionView>, c: int)
    ensures
        0 <= insert_pos_desc(sorted, c) <= sorted.len(),
        forall|i: int| insert_pos_desc(sorted, c) <= i < sorted.len() ==> sorted[i].count < c,
        (forall|i: int, j: int| 0 <= i < j < sorted.len() ==> sorted[i].count >= sorted[j].count)
            ==> forall|i: int| 0 <= i < insert_pos_desc(sorted, c) ==> sorted[i].count >= c,
    decreases sorted.len(),
{
    if sorted.len() > 0 && sorted.last().count < c {
        lemma_insert_pos_desc_bounds(sorted.drop_last(), c);
        let p = insert_pos_desc(sorted, c);
        assert forall|i: int| p <= i < sorted.len() implies sorted[i].count < c by {
            if i < sorted.len() - 1 {
                assert(sorted[i] == sorted.drop_last()[i]);
            }
        }
        if forall|i: int, j: int| 0 <= i < j < sorted.len() ==> sorted[i].count >= sorted[j].count {
            assert forall|i: int| 0 <= i < p implies sorted[i].count >= c by {
                assert(sorted[i] == sorted.drop_last()[i]);
            }
        }
    }
}

/// Law: the reactions shown are ordered by count, most first, and their
/// counts add up to the same total as before sorting.
pub proof fn law_reactions_sorted_by_count(s: Seq<ReactionView>)
    ensures
        forall|i: int, j: int|
            0 <= i < j < sort_by_count_desc(s).len() ==> sort_by_count_desc(s)[i].count
                >= sort_by_count_desc(s)[j].count,
        total_count(sort_by_count_desc(s)) == total_count(s),
        sort_by_count_desc(s).len() == s.len(),
    decreases s.len(),
{
    if s.len() > 0 {
        let prev = sort_by_count_desc(s.drop_last());
        law_reactions_sorted_by_count(s.drop_last());
        let t = s.last();
        let p = insert_pos_desc(prev, t.count);
        lemma_insert_pos_desc_bounds(prev, t.count);
        let res = sort_by_count_desc(s);
        assert(res == prev.take(p) + seq![t] + prev.skip(p));
        assert forall|i: int, j: int| 0 <= i < j < res.len() implies res[i].count >= res[j].count by {
            if j < p {
                assert(res[i] == prev[i] && res[j] == prev[j]);
            } else if j == p {
                assert(res[j] == t && res[i] == prev[i]);
            } else if i < p {
                assert(res[i] == prev[i] && res[j] == prev[j - 1]);
            } else if i == p {
                assert(res[i] == t && res[j] == prev[j - 1]);
            } else {
                assert(res[i] == prev[i - 1] && res[j] == prev[j - 1]);
            }
        }
        assert(prev =~= prev.take(p) + prev.skip(p));
        lemma_total_concat(prev.take(p), prev.skip(p));
        lemma_total_concat(prev.take(p) + seq![t], prev.skip(p));
        lemma_total_concat(prev.take(p), seq![t]);
        assert(total_count(seq![t]) == t.count) by {
            let one = seq![t];
            assert(one.drop_last() =~= Seq::<ReactionView>::empty());
            assert(total_count(one.drop_last()) == 0);
            assert(one.last() == t);
        }
    }
}

/// Whether no key occurs twice among the pairs `entries`, as in the map they
/// are read from.
pub open spec fn keys_distinct(entries: Seq<(Seq<char>, Seq<char>)>) -> bool {
    forall|i: int, j: int|
        0 <= i < j < entries.len() ==> #[trigger] entries[i].0 != #[trigger] entries[j].0
}

/// Law: where keys are distinct, as in a map, `lookup` gives the value of
/// the pair with the key, and nothing when no pair has it.
pub proof fn law_lookup_finds_the_pair(entries: Seq<(Seq<char>, Seq<char>)>, key: Seq<char>)
    requires
        keys_distinct(entries),
    ensures
        forall|i: int|
            0 <= i < entries.len() && #[trigger] entries[i].0 == key ==> lookup(entries, key)
                == Some(entries[i].1),
        (forall|i: int| 0 <= i < entries.len() ==> #[trigger] entries[i].0 != key) ==> lookup(
            entries,
            key,
        ) is None,
    decreases entries.len(),
{
    if entries.len() > 0 {
        let rest = entries.drop_first();
        assert(keys_distinct(rest)) by {
            assert forall|i: int, j: int| 0 <= i < j < rest.len() implies #[trigger] rest[i].0
                != #[trigger] rest[j].0 by {
                assert(rest[i] == entries[i + 1] && rest[j] == entries[j + 1]);
            }
        }
        law_lookup_finds_the_pair(rest, key);
        assert forall|i: int|
            0 <= i < entries.len() && #[trigger] entries[i].0 == key implies lookup(entries, key)
                == Some(entries[i].1) by {
            if i > 0 {
                assert(entries[0].0 != entries[i].0);
                assert(rest[i - 1] == entries[i]);
            }
        }
        if forall|i: int| 0 <= i < entries.len() ==> #[trigger] entries[i].0 != key {
            assert forall|i: int| 0 <= i < rest.len() implies #[trigger] rest[i].0 != key by {
                assert(rest[i] == entries[i + 1]);
            }
        }
    }
}

/// Law: a reaction that holds no `@` (so it names no custom emoji) and is
/// not empty is shown as the Unicode emoji of its first character, with
/// that character's identifier and Twemoji image and its count.
pub proof fn law_unicode_reaction_uses_first_char(
    reactions: Seq<(Seq<char>, u64)>,
    r: Seq<char>,
    count: u64,
    local_emojis: Seq<(Seq<char>, Seq<char>)>,
    reaction_emojis: Seq<(Seq<char>, Seq<char>)>,
    local_instance: Seq<char>,
)
    requires
        r.len() > 0,
        !r.contains('@'),
    ensures
        resolved_reactions(reactions.push((r, count)), local_emojis, reaction_emojis, local_instance)
            == resolved_reactions(reactions, local_emojis, reaction_emojis, local_instance).push(
            ReactionView {
                id: emoji_id(r[0]),
                url: twemoji_url(local_instance, emoji_id(r[0])),
                count: count as int,
            },
        ),
{
    let all = reactions.push((r, count));
    assert(all.drop_last() =~= reactions);
    if has_suffix(r, local_marker()) {
        assert(r[r.len() - 3] == r.skip(r.len() - 3)[0]);
        assert(false);
    }
}

/// Law: a reaction `:name@.:` for a custom emoji of the local instance is
/// shown as that emoji, with the address the local instance gives for the
/// name, when it gives one; it is not shown when the name is unknown.
pub proof fn law_local_reaction_uses_local_emoji(
    reactions: Seq<(Seq<char>, u64)>,
    name: Seq<char>,
    count: u64,
    local_emojis: Seq<(Seq<char>, Seq<char>)>,
    reaction_emojis: Seq<(Seq<char>, Seq<char>)>,
    local_instance: Seq<char>,
)
    requires
        keys_distinct(local_emojis),
    ensures
        forall|m: int|
            0 <= m < local_emojis.len() && #[trigger] local_emojis[m].0 == name ==> resolved_reactions(
                reactions.push((seq![':'] + name + seq!['@', '.', ':'], count)),
                local_emojis,
                reaction_emojis,
                local_instance,
            ) == resolved_reactions(reactions, local_emojis, reaction_emojis, local_instance).push(
                ReactionView { id: name, url: local_emojis[m].1, count: count as int },
            ),
        (forall|m: int| 0 <= m < local_emojis.len() ==> #[trigger] local_emojis[m].0 != name)
            ==> resolved_reactions(
            reactions.push((seq![':'] + name + seq!['@', '.', ':'], count)),
            local_emojis,
            reaction_emojis,
            local_instance,
        ) == resolved_reactions(reactions, local_emojis, reaction_emojis, local_instance),
{
    let r = seq![':'] + name + seq!['@', '.', ':'];
    let all = reactions.push((r, count));
    assert(all.drop_last() =~= reactions);
    assert(r.skip(r.len() - 3) =~= local_marker());
    assert(r.subrange(1, r.len() - 3) =~= name);
    law_lookup_finds_the_pair(local_emojis, name);
}

/// Law: a reaction `:name@host:` for a custom emoji of another instance
/// (the name holds the `@host`, and does not end in `@.`) is shown as that
/// emoji, with the address the note gives for `name@host`, when it gives
/// one; it is not shown when the note gives none.
pub proof fn law_remote_reaction_uses_note_emoji(
    reactions: Seq<(Seq<char>, u64)>,
    name: Seq<char>,
    count: u64,
    local_emojis: Seq<(Seq<char>, Seq<char>)>,
    reaction_emojis: Seq<(Seq<char>, Seq<char>)>,
    local_instance: Seq<char>,
)
    requires
        keys_distinct(reaction_emojis),
        name.contains('@'),
        !has_suffix(name, seq!['@', '.']),
    ensures
        forall|m: int|
            0 <= m < reaction_emojis.len() && #[trigger] reaction_emojis[m].0 == name
                ==> resolved_reactions(
                reactions.push((seq![':'] + name + seq![':'], count)),
                local_emojis,
                reaction_emojis,
                local_instance,
            ) == resolved_reactions(reactions, local_emojis, reaction_emojis, local_instance).push(
                ReactionView { id: name, url: reaction_emojis[m].1, count: count as int },
            ),
        (forall|m: int| 0 <= m < reaction_emojis.len() ==> #[trigger] reaction_emojis[m].0 != name)
            ==> resolved_reactions(
            reactions.push((seq![':'] + name + seq![':'], count)),
            local_emojis,
            reaction_emojis,
            local_instance,
        ) == resolved_reactions(reactions, local_emojis, reaction_emojis, local_instance),
{
    let r = seq![':'] + name + seq![':'];
    let all = reactions.push((r, count));
    assert(all.drop_last() =~= reactions);
    let w = choose|i: int| 0 <= i < name.len() && name[i] == '@';
    assert(r[w + 1] == '@');
    assert(r.contains('@'));
    if has_suffix(r, local_marker()) {
        let t = r.skip(r.len() - 3);
        assert(t[2] == ':');
        assert(t[0] == '@' && t[1] == '.');
        if name.len() >= 2 {
            assert(name.skip(name.len() - 2) =~= seq!['@', '.']);
        } else {
            assert(r.len() <= 3);
            assert(t[0] == r[0]);
        }
        assert(false);
    }
    assert(r.subrange(1, r.len() - 1) =~= name);
    law_lookup_finds_the_pair(reaction_emojis, name);
}

} // verus!
