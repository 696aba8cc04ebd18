use yac_model::instance::{color_fields_cut_of, parse_rgb_of, theme_color, FediverseInstance, RawInstance, Rgba};
use yac_model::model::Reactions;
use yac_model::reactions::{plan_reactions, reaction_emoji_of, readable_reaction_of};

fn pairs(v: &[(&str, &str)]) -> Vec<(String, String)> {
    v.iter().map(|(a, b)| (a.to_string(), b.to_string())).collect()
}

#[test]
fn reactions_are_resolved_sorted_and_totalled() {
    let reactions: Vec<(String, u64)> = vec![
        (":like@.:".to_string(), 3),
        ("👍".to_string(), 5),
        (":blob@misskey.io:".to_string(), 2),
        (":unknown@.:".to_string(), 100),
        (":gone@else.where:".to_string(), 50),
        ("🎉".to_string(), 3),
    ];
    let local = pairs(&[("like", "https://l/like.png")]);
    let remote = pairs(&[("blob@misskey.io", "https://r/blob.png")]);
    let (entries, all) = plan_reactions(&reactions, &local, &remote, "https://local");
    let got: Vec<(String, String, u64)> =
        entries.iter().map(|e| (e.id.clone(), e.url.clone(), e.count)).collect();
    assert_eq!(
        got,
        vec![
            ("1f44d".to_string(), "https://local/twemoji/1f44d.svg".to_string(), 5),
            ("like".to_string(), "https://l/like.png".to_string(), 3),
            ("1f389".to_string(), "https://local/twemoji/1f389.svg".to_string(), 3),
            ("blob@misskey.io".to_string(), "https://r/blob.png".to_string(), 2),
        ]
    );
    assert_eq!(all, 13);
    let r: Reactions<u8> = Reactions::from_entries(entries, vec![1, 2, 3, 4], all);
    assert_eq!(r.all, 13);
    assert_eq!(r.emojis(), vec![&1, &2, &3, &4]);
    assert_eq!(r.emojis[1].0.id(), "like");
    assert_eq!(r.emojis[1].1, 3);
}

#[test]
fn large_counts_do_not_overflow_the_total() {
    let reactions: Vec<(String, u64)> = vec![("a".to_string(), u64::MAX), ("b".to_string(), u64::MAX)];
    let (_, all) = plan_reactions(&reactions, &[], &[], "h");
    assert_eq!(all, 2 * (u64::MAX as u128));
}

#[test]
fn single_reaction_kinds() {
    let local = pairs(&[("", "empty-name")]);
    assert_eq!(
        reaction_emoji_of(":@.:", &local, &[], "h"),
        Some(("".to_string(), "empty-name".to_string()))
    );
    assert_eq!(reaction_emoji_of("", &local, &[], "h"), None);
    assert_eq!(
        reaction_emoji_of("@@", &[], &pairs(&[("", "at")]), "h"),
        Some(("".to_string(), "at".to_string()))
    );
}

#[test]
fn theme_colors() {
    assert_eq!(theme_color(Some("#ff8000")), Rgba { r: 255, g: 128, b: 0, a: 255 });
    assert_eq!(theme_color(Some("#FFffFF")), Rgba { r: 255, g: 255, b: 255, a: 255 });
    assert_eq!(theme_color(None), Rgba { r: 0, g: 0, b: 0, a: 255 });
    assert_eq!(theme_color(Some("#zz0000")), Rgba { r: 0, g: 0, b: 0, a: 0 });
    assert_eq!(theme_color(Some("#+f0a0b")), Rgba { r: 15, g: 10, b: 11, a: 255 });
    assert_eq!(theme_color(Some("#-10000")), Rgba { r: 0, g: 0, b: 0, a: 0 });
    assert_eq!(theme_color(Some("#123456789")), Rgba { r: 0x12, g: 0x34, b: 0x56, a: 255 });
    assert_eq!(parse_rgb_of("#é0000"), None);
    assert_eq!(parse_rgb_of("#00"), None);
    // Reading stops at the first field that is no byte, so the later
    // fields of these are never cut.
    assert_eq!(theme_color(Some("#zz")), Rgba { r: 0, g: 0, b: 0, a: 0 });
    assert_eq!(theme_color(Some("#é0000")), Rgba { r: 0, g: 0, b: 0, a: 0 });
    assert_eq!(theme_color(Some("#ffzz")), Rgba { r: 0, g: 0, b: 0, a: 0 });
    assert_eq!(theme_color(Some("#ffeeé")), Rgba { r: 0, g: 0, b: 0, a: 0 });
}

#[test]
fn theme_color_fields_cut_where_reading_stops() {
    assert!(color_fields_cut_of("#ff8000"));
    assert!(color_fields_cut_of("#123456789"));
    assert!(color_fields_cut_of("#zz"));
    assert!(color_fields_cut_of("#é0000"));
    assert!(color_fields_cut_of("#ffzz"));
    assert!(color_fields_cut_of("#ffeeé"));
    assert!(!color_fields_cut_of("#ffee"));
    assert!(!color_fields_cut_of("#ffe"));
    assert!(!color_fields_cut_of("#fff"));
    assert!(!color_fields_cut_of("#0é0000"));
    assert!(!color_fields_cut_of("é"));
    assert!(!color_fields_cut_of(""));
    assert!(!color_fields_cut_of("#f"));
}

#[test]
fn instance_from_raw() {
    let raw = RawInstance {
        name: Some("Misskey".to_string()),
        favicon_url: None,
        icon_url: Some("https://i/icon.png".to_string()),
        theme_color: Some("#86b300".to_string()),
    };
    let mut inst = FediverseInstance::new(&raw, "https://proxy", |u| u);
    assert_eq!(inst.host(), "");
    assert_eq!(inst.display_name(), "Misskey");
    assert_eq!(inst.theme_color(), Rgba { r: 0x86, g: 0xb3, b: 0, a: 255 });
    assert_eq!(inst.icon(), "https://proxy/emoji.webp?url=https%3A%2F%2Fi%2Ficon.png&emoji=1");
    inst.set_host("misskey.io".to_string());
    assert_eq!(inst.host(), "misskey.io");
    let bare = RawInstance { name: None, favicon_url: Some("f".to_string()), icon_url: Some("i".to_string()), theme_color: None };
    let b = FediverseInstance::new(&bare, "p", |u| u);
    assert_eq!(b.display_name(), "");
    assert_eq!(b.icon(), "p/emoji.webp?url=f&emoji=1");
    let none = RawInstance { name: None, favicon_url: None, icon_url: None, theme_color: None };
    assert_eq!(FediverseInstance::new(&none, "p", |u| u).icon(), "local://dummy.png");
}

#[test]
fn written_colors_read_back() {
    for (r, g, b) in [(0u8, 0u8, 0u8), (255, 255, 255), (0x86, 0xb3, 0x00), (1, 16, 200), (0x0f, 0xf0, 0x7e)] {
        let s = format!("#{:02x}{:02x}{:02x}", r, g, b);
        assert!(color_fields_cut_of(&s));
        assert_eq!(theme_color(Some(&s)), Rgba { r, g, b, a: 255 });
    }
}

#[test]
fn reaction_texts_that_can_be_cut() {
    assert!(readable_reaction_of(":like@.:"));
    assert!(readable_reaction_of(":@.:"));
    assert!(!readable_reaction_of("@.:"));
    assert!(!readable_reaction_of("é@.:"));
    assert!(readable_reaction_of(":blob@misskey.io:"));
    assert!(readable_reaction_of("@@"));
    assert!(!readable_reaction_of("@"));
    assert!(!readable_reaction_of("é@x"));
    assert!(!readable_reaction_of("x@é"));
    assert!(readable_reaction_of("👍"));
    assert!(readable_reaction_of(""));
}

#[test]
fn lookup_finds_the_emoji_with_that_name() {
    let local = pairs(&[("a", "ua"), ("like", "ul"), ("b", "ub")]);
    assert_eq!(reaction_emoji_of(":like@.:", &local, &[], "h"), Some(("like".to_string(), "ul".to_string())));
    assert_eq!(reaction_emoji_of(":b@.:", &local, &[], "h"), Some(("b".to_string(), "ub".to_string())));
    assert_eq!(reaction_emoji_of(":c@.:", &local, &[], "h"), None);
}
