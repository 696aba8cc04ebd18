use yac_model::emoji::{emoji_id_of, twemoji_url_of, unicode_to_emoji};
use yac_model::url::{avatar_url, emoji_proxy_url_of};

#[test]
fn unicode_emoji_ids() {
    assert_eq!(emoji_id_of('😀'), "1f600");
    assert_eq!(emoji_id_of('a'), "61");
    assert_eq!(emoji_id_of('\u{2764}'), "2764");
    assert_eq!(emoji_id_of('\u{0}'), "");
    assert_eq!(emoji_id_of('\u{10ffff}'), "10ffff");
}

#[test]
fn unicode_to_emoji_uses_first_character() {
    assert_eq!(
        unicode_to_emoji("😀x", "https://misskey.example"),
        Some(("1f600".to_string(), "https://misskey.example/twemoji/1f600.svg".to_string()))
    );
    assert_eq!(unicode_to_emoji("", "https://misskey.example"), None);
    assert_eq!(twemoji_url_of("h", "2764"), "h/twemoji/2764.svg");
}

#[test]
fn proxy_url_percent_encodes_the_address() {
    assert_eq!(
        emoji_proxy_url_of("https://proxy", "https://a.b/c d.png?x=1&y=~_-."),
        "https://proxy/emoji.webp?url=https%3A%2F%2Fa.b%2Fc%20d.png%3Fx%3D1%26y%3D~_-.&emoji=1"
    );
    assert_eq!(
        emoji_proxy_url_of("", "é"),
        "/emoji.webp?url=%C3%A9&emoji=1"
    );
}

#[test]
fn avatar_addresses() {
    assert_eq!(avatar_url(Some("https://cdn/a.png"), "https://local", "alice", Some("remote.example")), "https://cdn/a.png");
    assert_eq!(avatar_url(None, "https://local", "alice", Some("remote.example")), "https://local/avatar/@alice@remote.example");
    assert_eq!(avatar_url(None, "https://local", "bob", None), "https://local/avatar/@bob");
}

#[test]
fn distinct_characters_get_distinct_emoji_ids() {
    let mut seen = std::collections::HashSet::new();
    let ranges = [(0u32, 0x800u32), (0x1f300, 0x1f700), (0x10fff0, 0x110000)];
    for (lo, hi) in ranges {
        for v in lo..hi {
            if let Some(c) = char::from_u32(v) {
                assert!(seen.insert(emoji_id_of(c)), "duplicate id for U+{:X}", v);
            }
        }
    }
    assert_eq!(emoji_id_of('\u{0}'), "");
    assert_eq!(emoji_id_of('\u{10}'), "10");
}
