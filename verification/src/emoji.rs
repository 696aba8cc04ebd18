use vstd::prelude::*;
use vstd::slice::slice_subrange;

use crate::text::{chars_of, concat_str, string_from_chars};

verus! {

/// The lowercase hexadecimal digit for `d` (0..=15).
pub open spec fn hex_digit_lower(d: int) -> char {
    if d < 10 {
        (d + 48) as char
    } else {
        (d + 87) as char
    }
}

/// The uppercase hexadecimal digit for `d` (0..=15).
pub open spec fn hex_digit_upper(d: int) -> char {
    if d < 10 {
        (d + 48) as char
    } else {
        (d + 55) as char
    }
}

/// Lowercase hexadecimal encoding: two digits per byte, high nibble first.
pub open spec fn hex_lower(data: Seq<u8>) -> Seq<char>
    decreases data.len(),
{
    if data.len() == 0 {
        seq![]
    } else {
        seq![hex_digit_lower(data[0] as int / 16), hex_digit_lower(data[0] as int % 16)] + hex_lower(
            data.drop_first(),
        )
    }
}

/// `hex::encode`: the lowercase hexadecimal encoding of `data`, two digits
/// per byte, high nibble first.
#[verifier::external_body]
fn hex_encode(data: &[u8]) -> (s: String)
    ensures
        s@ == hex_lower(data@),
{
    hex::encode(data)
}

/// The four bytes of `v`, most significant first (`u32::to_be_bytes`).
pub open spec fn be_bytes(v: u32) -> Seq<u8> {
    seq![
        (v / 0x1000000) as u8,
        ((v / 0x10000) % 0x100) as u8,
        ((v / 0x100) % 0x100) as u8,
        (v % 0x100) as u8,
    ]
}

/// The number of '0' characters that `s` begins with.
pub open spec fn leading_zeros(s: Seq<char>) -> nat
    decreases s.len(),
{
    if s.len() > 0 && s[0] == '0' {
        1 + leading_zeros(s.drop_first())
    } else {
        0
    }
}

/// The identifier of a Unicode emoji: its code point in lowercase hex, with
/// leading zeros removed (empty for U+0000).
pub open spec fn emoji_id(c: char) -> Seq<char> {
    let h = hex_lower(be_bytes(c as u32));
    h.skip(leading_zeros(h) as int)
}

/// The address of the Twemoji image of emoji `id` on `local_instance`.
pub open spec fn twemoji_url(local_instance: Seq<char>, id: Seq<char>) -> Seq<char> {
    local_instance + seq!['/', 't', 'w', 'e', 'm', 'o', 'j', 'i', '/'] + id + seq![
        '.',
        's',
        'v',
        'g',
    ]
}

/// The leading zeros of `s` are zeros, and the character after them is not.
pub proof fn lemma_leading_zeros_bound(s: Seq<char>)
    ensures
        leading_zeros(s) <= s.len(),
        forall|i: int| 0 <= i < leading_zeros(s) ==> s[i] == '0',
        leading_zeros(s) < s.len() ==> s[leading_zeros(s) as int] != '0',
    decreases s.len(),
{
    if s.len() > 0 && s[0] == '0' {
        lemma_leading_zeros_bound(s.drop_first());
        assert forall|i: int| 0 <= i < leading_zeros(s) implies s[i] == '0' by {
            if i > 0 {
                assert(s[i] == s.drop_first()[i - 1]);
            }
        }
    }
}

proof fn lemma_leading_zeros_of(s: Seq<char>, n: int)
    requires
        0 <= n <= s.len(),
        forall|i: int| 0 <= i < n ==> s[i] == '0',
        n < s.len() ==> s[n] != '0',
    ensures
        leading_zeros(s) == n,
    decreases s.len(),
{
    if n > 0 {
        lemma_leading_zeros_of(s.drop_first(), n - 1);
    }
}

/// The identifier of emoji `c` (see `emoji_id`).
pub fn emoji_id_of(c: char) -> (id: String)
    ensures
        id@ == emoji_id(c),
{
    let v = c as u32;
    let bytes: Vec<u8> = vec![(v >> 24) as u8, ((v >> 16) & 0xff) as u8, ((v >> 8) & 0xff) as u8, (v & 0xff) as u8];
    assert(bytes@ =~= be_bytes(v)) by {
        assert((v >> 24) as u8 == (v / 0x1000000) as u8) by (bit_vector);
        assert(((v >> 16) & 0xff) as u8 == ((v / 0x10000) % 0x100) as u8) by (bit_vector);
        assert(((v >> 8) & 0xff) as u8 == ((v / 0x100) % 0x100) as u8) by (bit_vector);
        assert((v & 0xff) as u8 == (v % 0x100) as u8) by (bit_vector);
    };
    let hex = hex_encode(bytes.as_slice());
    let hc = chars_of(hex.as_str());
    let mut offset: usize = 0;
    while offset < hc.len() && hc[offset] == '0'
        invariant
            offset <= hc@.len(),
            forall|i: int| 0 <= i < offset ==> hc@[i] == '0',
        decreases hc@.len() - offset,
    {
        offset = offset + 1;
    }
    proof {
        lemma_leading_zeros_of(hc@, offset as int);
    }
    let rest = string_from_chars(slice_subrange(hc.as_slice(), offset, hc.len()));
    proof {
        assert(hc@.subrange(offset as int, hc@.len() as int) =~= hc@.skip(offset as int));
    }
    rest
}

/// `unicode_to_emoji`: the identifier and Twemoji address of the first
/// character of `unicode`, or `None` when `unicode` is empty.
pub fn unicode_to_emoji(unicode: &str, local_instance: &str) -> (r: Option<(String, String)>)
    ensures
        unicode@.len() == 0 ==> r is None,
        unicode@.len() > 0 ==> (r matches Some((id, url)) && id@ == emoji_id(unicode@[0])
            && url@ == twemoji_url(local_instance@, id@)),
{
    if unicode.is_empty() {
        return None;
    }
    let c = unicode.get_char(0);
    let id = emoji_id_of(c);
    let url = twemoji_url_of(local_instance, id.as_str());
    Some((id, url))
}

/// The Twemoji address of emoji `id` on `local_instance`.
pub fn twemoji_url_of(local_instance: &str, id: &str) -> (url: String)
    ensures
        url@ == twemoji_url(local_instance@, id@),
{
    let mut url = concat_str(local_instance, "/twemoji/");
    url.append(id);
    url.append(".svg");
    proof {
        reveal_strlit("/twemoji/");
        reveal_strlit(".svg");
        assert(url@ =~= twemoji_url(local_instance@, id@));
    }
    url
}

proof fn lemma_hex_lower_digits(d: Seq<u8>)
    ensures
        hex_lower(d).len() == 2 * d.len(),
        forall|i: int|
            0 <= i < d.len() ==> hex_lower(d)[2 * i] == hex_digit_lower(#[trigger] d[i] as int / 16)
                && hex_lower(d)[2 * i + 1] == hex_digit_lower(d[i] as int % 16),
    decreases d.len(),
{
    if d.len() > 0 {
        let rest = d.drop_first();
        lemma_hex_lower_digits(rest);
        let h = hex_lower(d);
        assert forall|i: int| 0 <= i < d.len() implies h[2 * i] == hex_digit_lower(
            #[trigger] d[i] as int / 16,
        ) && h[2 * i + 1] == hex_digit_lower(d[i] as int % 16) by {
            if i > 0 {
                assert(d[i] == rest[i - 1]);
                assert(h[2 * i] == hex_lower(rest)[2 * (i - 1)]);
                assert(h[2 * i + 1] == hex_lower(rest)[2 * (i - 1) + 1]);
            }
        }
    }
}

proof fn lemma_hex_lower_injective(a: Seq<u8>, b: Seq<u8>)
    requires
        a.len() == b.len(),
        hex_lower(a) == hex_lower(b),
    ensures
        a == b,
{
    lemma_hex_lower_digits(a);
    lemma_hex_lower_digits(b);
    assert forall|i: int| 0 <= i < a.len() implies a[i] == b[i] by {
        let (x, y) = (a[i] as int, b[i] as int);
        assert(hex_lower(a)[2 * i] == hex_lower(b)[2 * i]);
        assert(hex_lower(a)[2 * i + 1] == hex_lower(b)[2 * i + 1]);
        assert(x / 16 == y / 16);
        assert(x % 16 == y % 16);
    }
    assert(a =~= b);
}

proof fn lemma_be_bytes_injective(v: u32, w: u32)
    requires
        be_bytes(v) == be_bytes(w),
    ensures
        v == w,
{
    let (bv, bw) = (be_bytes(v), be_bytes(w));
    assert(bv[0] == bw[0] && bv[1] == bw[1] && bv[2] == bw[2] && bv[3] == bw[3]);
    assert(v == (v / 0x1000000) as u8 as int * 0x1000000 + ((v / 0x10000) % 0x100) as u8 as int
        * 0x10000 + ((v / 0x100) % 0x100) as u8 as int * 0x100 + (v % 0x100) as u8 as int)
        by (nonlinear_arith);
    assert(w == (w / 0x1000000) as u8 as int * 0x1000000 + ((w / 0x10000) % 0x100) as u8 as int
        * 0x10000 + ((w / 0x100) % 0x100) as u8 as int * 0x100 + (w % 0x100) as u8 as int)
        by (nonlinear_arith);
}

/// Law: distinct characters get distinct emoji identifiers, so an emoji
/// cached under its identifier is never mistaken for another.
pub proof fn law_emoji_id_injective(c: char, d: char)
    requires
        emoji_id(c) == emoji_id(d),
    ensures
        c == d,
{
    let (bc, bd) = (be_bytes(c as u32), be_bytes(d as u32));
    let (hc, hd) = (hex_lower(bc), hex_lower(bd));
    lemma_hex_lower_digits(bc);
    lemma_hex_lower_digits(bd);
    lemma_leading_zeros_bound(hc);
    lemma_leading_zeros_bound(hd);
    let (zc, zd) = (leading_zeros(hc) as int, leading_zeros(hd) as int);
    assert(hc.skip(zc) == hd.skip(zd));
    assert(zc == zd);
    assert forall|i: int| 0 <= i < 8 implies hc[i] == hd[i] by {
        if i >= zc {
            assert(hc[i] == hc.skip(zc)[i - zc]);
            assert(hd[i] == hd.skip(zd)[i - zd]);
        }
    }
    assert(hc =~= hd);
    lemma_hex_lower_injective(bc, bd);
    lemma_be_bytes_injective(c as u32, d as u32);
}

} // verus!
