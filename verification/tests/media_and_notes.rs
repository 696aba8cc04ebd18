use std::sync::atomic::Ordering as AtomicOrdering;
use std::sync::Arc;

use yac_model::loading::{cache_dir_from, eviction_targets_of, load_start, should_cache_of, LoadStart};
use yac_model::model::{blurhash_cuttable_of, MFMString, Note, NoteFile, RawFile, RawFileProperties, Reactions, UserProfile};
use yac_model::texture::{frame_index, frames_to_upload, TextureState};
use yac_model::time::Timestamp;
use yac_model::visibility::Visibility;

#[test]
fn visibility_names() {
    assert_eq!(Visibility::from("public"), Visibility::Public);
    assert_eq!(Visibility::from("home"), Visibility::Home);
    assert_eq!(Visibility::from("followers"), Visibility::Followers);
    assert_eq!(Visibility::from("specified"), Visibility::Specified);
    assert_eq!(Visibility::from("Public"), Visibility::Specified);
    assert_eq!(Visibility::from(""), Visibility::Specified);
}

#[test]
fn texture_state_transitions() {
    let mut t: TextureState<u8, u16> = TextureState::OnMemory(vec![(0, 1), (40, 2)]);
    assert!(t.is_on_memory());
    assert_eq!(t.state_name(), "OnMemory");
    assert_eq!(t.take_gpu(), None);
    assert!(t.is_on_memory());
    assert_eq!(t.take_memory(), Some(vec![(0, 1), (40, 2)]));
    assert_eq!(t.state_name(), "None");
    assert_eq!(t.take_memory(), None);
    let mut g: TextureState<u8, u16> = TextureState::OnGpu(vec![(0, 5)]);
    assert_eq!(g.state_name(), "OnGpu");
    assert_eq!(g.take_gpu(), Some(vec![(0, 5)]));
    assert!(matches!(g, TextureState::Empty));
    let d: TextureState<u8, u16> = Default::default();
    assert!(matches!(d, TextureState::Empty));
}

#[test]
fn animation_frames() {
    let frames = vec![(0u32, 'a'), (100, 'b'), (200, 'c')];
    assert_eq!(frame_index::<char>(&[], 5), None);
    assert_eq!(frame_index(&frames, 0), Some(2));
    assert_eq!(frame_index(&frames, 50), Some(0));
    assert_eq!(frame_index(&frames, 100), Some(0));
    assert_eq!(frame_index(&frames, 150), Some(1));
    assert_eq!(frame_index(&frames, 250), Some(0));
    assert_eq!(frame_index(&frames, 399), Some(1));
    let still = vec![(0u32, 'x')];
    assert_eq!(frame_index(&still, 12345), Some(0));
    assert_eq!(frames_to_upload(frames.clone(), true), Some(frames.clone()));
    assert_eq!(frames_to_upload(frames, false), Some(vec![(0, 'a')]));
    assert_eq!(frames_to_upload(Vec::<(u32, char)>::new(), true), None);
}

#[test]
fn loading_decisions() {
    assert!(matches!(load_start(true, "https://x"), LoadStart::Done));
    assert!(matches!(load_start(false, "local://dummy.png"), LoadStart::MarkLoaded));
    match load_start(false, "https://example.com/a.png") {
        LoadStart::Fetch { cache_file_name } => {
            let expected = uuid::Uuid::new_v3(&uuid::Uuid::NAMESPACE_URL, b"https://example.com/a.png").to_string();
            assert_eq!(cache_file_name, expected);
            assert_ne!(cache_file_name, "https://example.com/a.png");
            assert_eq!(cache_file_name.len(), 36);
            assert_eq!(cache_file_name.chars().nth(14), Some('3'));
            assert!(!cache_file_name.contains('/') && !cache_file_name.contains('.'));
        }
        _ => panic!("expected a fetch"),
    }
    assert!(should_cache_of(Some("public, max-age=31536000, immutable"), 10));
    assert!(!should_cache_of(Some("public, max-age=31536000, immutable"), 1024 * 1024));
    assert!(should_cache_of(Some("immutable"), 1024 * 1024 - 1));
    assert!(!should_cache_of(Some("no-cache"), 10));
    assert!(!should_cache_of(None, 10));
    assert_eq!(eviction_targets_of(&[(true, 1), (false, 0), (true, 5), (true, 2)], 3), vec![0, 3]);
    assert_eq!(eviction_targets_of(&[], 3), Vec::<usize>::new());
    assert_eq!(cache_dir_from(None), "cache");
    assert_eq!(cache_dir_from(Some("/tmp/c".to_string())), "/tmp/c");
}

fn raw_file(mime: Option<&str>, thumb: Option<&str>, hash: Option<&str>, w: Option<u32>, h: Option<u32>) -> RawFile {
    RawFile {
        mime_type: mime.map(|s| s.to_string()),
        thumbnail_url: thumb.map(|s| s.to_string()),
        blurhash: hash.map(|s| s.to_string()),
        properties: Some(RawFileProperties { width: w, height: h }),
        is_sensitive: true,
        url: Some("https://files/full.png".to_string()),
    }
}

#[test]
fn note_files() {
    let hash = "LEHV6nWB2yk8pyo0adR*.7kCMdnj";
    let f: NoteFile<String> = NoteFile::from_raw(
        &raw_file(Some("image/png"), Some("https://t/thumb"), Some(hash), Some(320), Some(5)),
        |u| u,
        |name, w, h, px| Some(format!("{} {}x{} {}", name, w, h, px.len())),
    );
    assert!(f.is_image());
    assert_eq!(f.img(), Some(&"https://t/thumb".to_string()));
    assert_eq!(f.blurhash, Some(format!("blurhash://{} 32x1 128", hash)));
    assert_eq!(f.original_url, Some("https://files/full.png".to_string()));
    assert!(f.is_sensitive);
    assert!(!f.show_sensitive.load(AtomicOrdering::Relaxed));
    let pixels = blurhash_wasm::decode(hash, 32, 1).unwrap();
    let g: NoteFile<Vec<u8>> = NoteFile::from_raw(
        &raw_file(Some("image/png"), Some("t"), Some(hash), Some(320), Some(5)),
        |u| u.into_bytes(),
        |_, _, _, px| Some(px),
    );
    assert_eq!(g.blurhash, Some(pixels));

    let v: NoteFile<String> = NoteFile::from_raw(
        &raw_file(Some("video/mp4"), Some("t"), Some("bad"), Some(320), Some(240)),
        |u| u,
        |_, _, _, _| Some("x".to_string()),
    );
    assert!(!v.is_image());
    assert_eq!(v.blurhash, None);
    let no_size: NoteFile<String> = NoteFile::from_raw(
        &raw_file(Some("image/png"), None, Some(hash), None, Some(240)),
        |u| u,
        |_, _, _, _| Some("x".to_string()),
    );
    assert!(!no_size.is_image());
    assert_eq!(no_size.blurhash, None);
}

fn mfm(s: &str) -> MFMString<u8> {
    MFMString::from_pieces(s.to_string(), vec![yac_model::mfm::MfmPiece::Text(s.to_string())], vec![])
}

#[test]
fn notes_compare_by_identity_reactions_quote_and_time() {
    let user = Arc::new(UserProfile::new("u1".to_string(), "alice".to_string(), mfm("Alice"), None, 0u8));
    let make = |id: &str, all: u128, secs: i64| Note {
        id: id.to_string(),
        user: user.clone(),
        quote: None,
        text: mfm("hello"),
        visibility: Visibility::Public,
        reactions: Reactions { emojis: vec![], all },
        files: vec![],
        cw: None,
        created_at: Timestamp { secs, nanos: 0 },
    };
    assert!(make("n1", 1, 10) == make("n1", 1, 10));
    assert!(make("n1", 1, 10) != make("n2", 1, 10));
    assert!(make("n1", 1, 10) != make("n1", 2, 10));
    assert!(make("n1", 1, 10) != make("n1", 1, 11));
    let mut quoting = make("n1", 1, 10);
    quoting.quote = Some(Arc::new(make("q", 0, 0)));
    assert!(quoting != make("n1", 1, 10));
    let label = make("n1", 1, 0).created_at_label();
    assert!(label.ends_with("年前"));
}

#[test]
fn system_messages() {
    let n = Note::system_message(mfm("hello"), mfm("bot"), 3u8);
    assert_eq!(n.user.id, "system");
    assert_eq!(n.user.username, "system");
    assert_eq!(n.user.display_name.raw(), "bot");
    assert!(n.user.instance.is_none());
    assert_eq!(n.user.icon, 3);
    assert_eq!(n.text.raw(), "hello");
    assert_eq!(n.visibility, Visibility::Public);
    assert_eq!(n.reactions.all, 0);
    assert!(n.files.is_empty() && n.cw.is_none() && n.quote.is_none());
    assert_eq!(n.id.len(), 36);
    assert_eq!(n.id.chars().nth(14), Some('4'));
    assert!(matches!(n.id.chars().nth(19), Some('8' | '9' | 'a' | 'b')));
    assert!(n.id.chars().enumerate().all(|(i, c)| if [8, 13, 18, 23].contains(&i) {
        c == '-'
    } else {
        c.is_ascii_digit() || ('a'..='f').contains(&c)
    }));
    let m = Note::system_message(mfm("hello"), mfm("bot"), 3u8);
    assert_ne!(n.id, m.id);
    let label = n.created_at_label();
    assert!(label == "0秒前" || label == "1秒前", "{}", label);
}

#[test]
fn blurhash_cuttable_where_decoding_cuts_whole_characters() {
    // A well-formed hash: 'L' announces 4 x 3 components, 28 bytes.
    assert!(blurhash_cuttable_of("LEHV6nWB2yk8pyo0adR*.7kCMdnj"));
    // Shorter than six bytes: refused before any cut.
    assert!(blurhash_cuttable_of("é"));
    assert!(blurhash_cuttable_of(""));
    // The first byte does not end a character.
    assert!(!blurhash_cuttable_of("éabcde"));
    // '0' announces one component, six bytes; this hash has seven, so it is
    // refused before the other cuts.
    assert!(blurhash_cuttable_of("0abcdé"));
    // Six bytes whose fields all end on character boundaries.
    assert!(blurhash_cuttable_of("0abcé"));
    assert!(blurhash_cuttable_of("0aéxy"));
    // Six bytes, but byte 2 falls inside 'é'.
    assert!(!blurhash_cuttable_of("0éabc"));
}

#[test]
fn blurhash_decode_agrees_with_checker_on_safe_inputs() {
    for h in ["LEHV6nWB2yk8pyo0adR*.7kCMdnj", "0abcdé", "0abcé", "0aéxy", "abc"] {
        assert!(blurhash_cuttable_of(h));
        let _ = blurhash_wasm::decode(h, 2, 2);
    }
}

#[test]
fn note_file_without_size_never_decodes_its_hash() {
    // This hash could not be decoded without splitting 'é', but without a
    // size no preview is asked for.
    let f: NoteFile<String> = NoteFile::from_raw(
        &raw_file(Some("image/webp"), Some("https://t/x"), Some("éabcde"), Some(10), None),
        |u| u,
        |_, _, _, _| Some("x".to_string()),
    );
    assert!(f.is_image());
    assert_eq!(f.blurhash, None);
}
