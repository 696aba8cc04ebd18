use yac_model::mfm::{mfm_pieces_of, mfm_plan, MfmPiece};
use yac_model::model::{MFMElement, MFMString};

fn text(s: &str) -> MfmPiece {
    MfmPiece::Text(s.to_string())
}

fn emoji(id: &str, url: &str, start: usize, end: usize) -> MfmPiece {
    MfmPiece::Emoji { id: id.to_string(), url: url.to_string(), start, end }
}

fn same(a: &[MfmPiece], b: &[MfmPiece]) -> bool {
    a.len() == b.len()
        && a.iter().zip(b.iter()).all(|(x, y)| match (x, y) {
            (MfmPiece::Text(p), MfmPiece::Text(q)) => p == q,
            (
                MfmPiece::Emoji { id: i1, url: u1, start: s1, end: e1 },
                MfmPiece::Emoji { id: i2, url: u2, start: s2, end: e2 },
            ) => i1 == i2 && u1 == u2 && s1 == s2 && e1 == e2,
            _ => false,
        })
}

fn pairs(v: &[(&str, &str)]) -> Vec<(String, String)> {
    v.iter().map(|(a, b)| (a.to_string(), b.to_string())).collect()
}

#[test]
fn local_text_uses_local_emojis_and_twemoji() {
    let local = pairs(&[("wave", "https://e/wave.png")]);
    let given = pairs(&[("other", "https://e/other.png")]);
    let p = mfm_plan("hello :wave: world 😀!", Some(&given), None, &local, "https://local");
    assert!(same(
        &p,
        &[
            text("hello "),
            emoji("wave", "https://e/wave.png", 6, 12),
            text(" world "),
            emoji("1f600", "https://local/twemoji/1f600.svg", 19, 20),
            text("!"),
        ]
    ));
}

#[test]
fn remote_text_uses_given_emojis_with_host_suffix() {
    let local = pairs(&[("wave", "https://e/wave.png")]);
    let given = pairs(&[("blob", "https://r/blob.png")]);
    let p = mfm_plan(":blob::wave::blob:", Some(&given), Some("remote.example"), &local, "https://local");
    assert!(same(
        &p,
        &[
            emoji("blob@remote.example", "https://r/blob.png", 0, 6),
            text(":wave:"),
            emoji("blob@remote.example", "https://r/blob.png", 12, 18),
        ]
    ));
    let none = mfm_plan(":blob:", None, Some("remote.example"), &local, "https://local");
    assert!(same(&none, &[text(":blob:")]));
}

#[test]
fn one_byte_emoji_matches_are_text() {
    let p = mfm_plan("#1 *", None, None, &[], "https://local");
    assert!(same(&p, &[text("#1 *")]));
    let e = mfm_plan("", None, None, &[], "https://local");
    assert!(e.is_empty());
}

#[test]
fn overlapping_tokens_follow_position_order() {
    let local = pairs(&[("a", "ua"), ("b", "ub")]);
    let p = mfm_plan(":a:b:", None, None, &local, "h");
    assert!(same(&p, &[emoji("a", "ua", 0, 3), emoji("b", "ub", 2, 5)]));
}

#[test]
fn ties_keep_the_order_the_emojis_were_given_in() {
    let local = pairs(&[("x", "u1"), ("x:y", "u2")]);
    let p = mfm_plan(":x:y:", None, None, &local, "h");
    assert!(same(&p, &[emoji("x", "u1", 0, 3), emoji("x:y", "u2", 0, 5)]));
}

#[test]
fn explicit_spans_are_converted_to_characters() {
    // "é😀" : 'é' is bytes 0..2, '😀' is bytes 2..6.
    let p = mfm_pieces_of("é😀", &[], &[(0, 2), (2, 6)], None, "h");
    assert!(same(
        &p,
        &[emoji("e9", "h/twemoji/e9.svg", 0, 1), emoji("1f600", "h/twemoji/1f600.svg", 1, 2)]
    ));
    let q = mfm_pieces_of("a😀b", &[], &[(0, 1), (1, 5)], None, "h");
    assert!(same(&q, &[text("a"), emoji("1f600", "h/twemoji/1f600.svg", 1, 2), text("b")]));
}

#[test]
fn pieces_spell_the_raw_text() {
    let raw = "x :wave: y 😀 z :wave:";
    let local = pairs(&[("wave", "w")]);
    let p = mfm_plan(raw, None, None, &local, "h");
    let chars: Vec<char> = raw.chars().collect();
    let mut spelled = String::new();
    for piece in &p {
        match piece {
            MfmPiece::Text(t) => {
                assert!(!t.is_empty());
                spelled.push_str(t);
            }
            MfmPiece::Emoji { start, end, .. } => spelled.extend(&chars[*start..*end]),
        }
    }
    assert_eq!(spelled, raw);
}

#[test]
fn mfm_string_from_pieces() {
    let local = pairs(&[("wave", "w")]);
    let p = mfm_plan("hi :wave: 😀", None, None, &local, "h");
    let s: MFMString<u32> = MFMString::from_pieces("hi :wave: 😀".to_string(), p, vec![7, 9]);
    assert_eq!(s.raw(), "hi :wave: 😀");
    assert!(!s.is_empty());
    assert_eq!(s.emojis(), vec![&7, &9]);
    let kinds: Vec<String> = s
        .elements()
        .iter()
        .map(|e| match e {
            MFMElement::Text(t) => format!("T{}", t),
            MFMElement::Emoji(em) => format!("E{}:{}", em.id(), em.url_image()),
        })
        .collect();
    assert_eq!(kinds, vec!["Thi ", "Ewave:7", "T ", "E1f600:9"]);
    let empty: MFMString<u32> = MFMString::from_pieces(String::new(), Vec::new(), Vec::new());
    assert!(empty.is_empty());
}

#[test]
fn text_without_emojis_is_one_piece() {
    assert!(same(&mfm_pieces_of("hello world", &[], &[], None, "h"), &[text("hello world")]));
    assert!(same(&mfm_pieces_of("ＡＢＣ", &[], &[], Some("x"), "h"), &[text("ＡＢＣ")]));
    assert!(mfm_pieces_of("", &[], &[], None, "h").is_empty());
}

#[test]
fn every_emoji_found_becomes_one_piece() {
    let local = pairs(&[("wave", "w"), ("a", "ua"), ("b", "ub")]);
    let count = |p: &[MfmPiece]| p.iter().filter(|x| matches!(x, MfmPiece::Emoji { .. })).count();
    assert_eq!(count(&mfm_plan("x :wave: y 😀 z :wave:", None, None, &local, "h")), 3);
    // Overlapping custom emojis are both kept.
    assert_eq!(count(&mfm_plan(":a:b:", None, None, &local, "h")), 2);
    assert_eq!(count(&mfm_plan("no emoji here", None, None, &local, "h")), 0);
}

#[test]
fn emoji_pieces_come_in_text_order() {
    let local = pairs(&[("wave", "w")]);
    let p = mfm_plan("😀 :wave: 😀 :wave:", None, None, &local, "h");
    let starts: Vec<usize> = p
        .iter()
        .filter_map(|x| match x {
            MfmPiece::Emoji { start, .. } => Some(*start),
            _ => None,
        })
        .collect();
    assert_eq!(starts, vec![0, 2, 9, 11]);
}
