use vstd::prelude::*;
use vstd::utf8::encode_utf8;

use crate::emoji::hex_digit_upper;
use crate::text::concat_str;

verus! {

/// Whether a byte is left as it is by percent-encoding: ASCII letters and
/// digits and `-`, `.`, `_`, `~`.
pub open spec fn is_unreserved(b: u8) -> bool {
    (48 <= b <= 57) || (65 <= b <= 90) || (97 <= b <= 122) || b == 45 || b == 46 || b == 95
        || b == 126
}

/// Percent-encoding of a byte sequence: unreserved bytes stand for
/// themselves, every other byte becomes `%` and two uppercase hex digits.
pub open spec fn percent_encode(bytes: Seq<u8>) -> Seq<char>
    decreases bytes.len(),
{
    if bytes.len() == 0 {
        seq![]
    } else {
        let b = bytes[0];
        let head = if is_unreserved(b) {
            seq![b as char]
        } else {
            seq!['%', hex_digit_upper(b as int / 16), hex_digit_upper(b as int % 16)]
        };
        head + percent_encode(bytes.drop_first())
    }
}

/// `urlencoding::encode`: percent-encodes every byte of the UTF-8 encoding
/// of `s` except ASCII letters, digits, `-`, `.`, `_` and `~`, with
/// uppercase hex digits.
#[verifier::external_body]
fn url_encode(s: &str) -> (r: String)
    ensures
        r@ == percent_encode(encode_utf8(s@)),
{
    urlencoding::encode(s).into_owned()
}

/// The address under which the media proxy serves the image at `url` as an
/// emoji: `{media_proxy}/emoji.webp?url={url, percent-encoded}&emoji=1`.
pub open spec fn emoji_proxy_url(media_proxy: Seq<char>, url: Seq<char>) -> Seq<char> {
    media_proxy + seq![
        '/',
        'e',
        'm',
        'o',
        'j',
        'i',
        '.',
        'w',
        'e',
        'b',
        'p',
        '?',
        'u',
        'r',
        'l',
        '=',
    ] + percent_encode(encode_utf8(url)) + seq!['&', 'e', 'm', 'o', 'j', 'i', '=', '1']
}

/// The media-proxy address of the image at `url` (see `emoji_proxy_url`).
pub fn emoji_proxy_url_of(media_proxy: &str, url: &str) -> (r: String)
    ensures
        r@ == emoji_proxy_url(media_proxy@, url@),
{
    let mut r = concat_str(media_proxy, "/emoji.webp?url=");
    let enc = url_encode(url);
    r.append(enc.as_str());
    r.append("&emoji=1");
    proof {
        reveal_strlit("/emoji.webp?url=");
        reveal_strlit("&emoji=1");
        assert(r@ =~= emoji_proxy_url(media_proxy@, url@));
    }
    r
}

/// The address of the avatar of `username` (from `host`, or local when
/// `host` is `None`) as served by `local_instance`:
/// `{local_instance}/avatar/@{username}` followed by `@{host}` when there is
/// a host.
pub open spec fn avatar_fallback_url(
    local_instance: Seq<char>,
    username: Seq<char>,
    host: Option<Seq<char>>,
) -> Seq<char> {
    local_instance + seq!['/', 'a', 'v', 'a', 't', 'a', 'r', '/', '@'] + username + match host {
        Some(h) => seq!['@'] + h,
        None => seq![],
    }
}

/// The avatar address of a user: the one the server gave, or else the
/// avatar route of the local instance (see `avatar_fallback_url`).
pub fn avatar_url(
    given: Option<&str>,
    local_instance: &str,
    username: &str,
    host: Option<&str>,
) -> (r: String)
    ensures
        given matches Some(u) ==> r@ == u@,
        given is None ==> r@ == avatar_fallback_url(
            local_instance@,
            username@,
            match host {
                Some(h) => Some(h@),
                None => None,
            },
        ),
{
    match given {
        Some(u) => String::from_str(u),
        None => {
            let mut r = concat_str(local_instance, "/avatar/@");
            r.append(username);
            match host {
                Some(h) => {
                    r.append("@");
                    r.append(h);
                },
                None => {},
            }
            proof {
                reveal_strlit("/avatar/@");
                reveal_strlit("@");
                assert(r@ =~= avatar_fallback_url(
                    local_instance@,
                    username@,
                    match host {
                        Some(h) => Some(h@),
                        None => None,
                    },
                ));
            }
            r
        },
    }
}

/// Whether `c` may stand in a percent-encoded query value: an unreserved
/// character or `%` (hex digits are among the unreserved).
pub open spec fn url_safe_char(c: char) -> bool {
    (c as u32) < 0x80 && (is_unreserved(c as u8) || c == '%')
}

/// Law: percent-encoding leaves only characters that may stand in a query
/// value, so the encoded address cannot end the `url=` parameter early.
pub proof fn law_percent_encoding_is_url_safe(bytes: Seq<u8>)
    ensures
        forall|i: int|
            0 <= i < percent_encode(bytes).len() ==> url_safe_char(#[trigger] percent_encode(bytes)[i]),
    decreases bytes.len(),
{
    if bytes.len() > 0 {
        law_percent_encoding_is_url_safe(bytes.drop_first());
        let b = bytes[0];
        let e = percent_encode(bytes);
        let rest = percent_encode(bytes.drop_first());
        let head = if is_unreserved(b) {
            seq![b as char]
        } else {
            seq!['%', hex_digit_upper(b as int / 16), hex_digit_upper(b as int % 16)]
        };
        assert(e == head + rest);
        assert forall|i: int| 0 <= i < e.len() implies url_safe_char(#[trigger] e[i]) by {
            if i >= head.len() {
                assert(e[i] == rest[i - head.len()]);
            } else if is_unreserved(b) {
                assert(e[i] == b as char);
                assert((b as char) as u32 == b as u32);
            } else {
                assert(e[i] == head[i]);
            }
        }
    }
}

} // verus!
