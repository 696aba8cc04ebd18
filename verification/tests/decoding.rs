use yac_model::loading::{eviction_targets_of, response_action, ResponseAction};
use yac_model::mfm::mfm_plan;
use yac_model::texture::{after_decode, decode_frames, TextureState};

fn png_bytes(w: u32, h: u32, px: &[u8]) -> Vec<u8> {
    let img = image::RgbaImage::from_raw(w, h, px.to_vec()).unwrap();
    let mut out = std::io::Cursor::new(Vec::new());
    img.write_to(&mut out, image::ImageFormat::Png).unwrap();
    out.into_inner()
}

fn webp_animation(frames: &[(Vec<u8>, i32)], w: u32, h: u32) -> Vec<u8> {
    let mut config = webp::WebPConfig::new().unwrap();
    config.lossless = 1;
    let mut enc = webp::AnimEncoder::new(w, h, &config);
    for (px, t) in frames {
        enc.add_frame(webp::AnimFrame::from_rgba(px, w, h, *t));
    }
    enc.encode().to_vec()
}

#[test]
fn still_png_decodes_to_one_frame_at_time_zero() {
    let px = vec![255, 0, 0, 255, 0, 255, 0, 128];
    let frames = decode_frames(&png_bytes(2, 1, &px)).unwrap();
    assert_eq!(frames.len(), 1);
    assert_eq!((frames[0].time_ms, frames[0].width, frames[0].height), (0, 2, 1));
    assert_eq!(frames[0].rgba, px);
}

#[test]
fn webp_animation_decodes_to_its_frames() {
    let a = vec![10u8, 20, 30, 255, 40, 50, 60, 255];
    let b = vec![70u8, 80, 90, 255, 100, 110, 120, 255];
    let bytes = webp_animation(&[(a.clone(), 0), (b.clone(), 100)], 2, 1);
    let frames = decode_frames(&bytes).unwrap();
    let direct = webp::AnimDecoder::new(&bytes).decode().unwrap();
    let expected: Vec<(u32, Vec<u8>)> = direct
        .into_iter()
        .map(|f| (f.get_time_ms() as u32, image::DynamicImage::from(&f).into_rgba8().into_raw()))
        .collect();
    let got: Vec<(u32, Vec<u8>)> = frames.iter().map(|f| (f.time_ms, f.rgba.clone())).collect();
    assert_eq!(got, expected);
    assert!(frames.len() >= 1);
    assert!(frames.iter().all(|f| f.width == 2 && f.height == 1));
    assert_eq!(frames[0].rgba, a);
}

#[test]
fn unrecognised_bytes_decode_to_nothing() {
    assert!(decode_frames(b"not an image at all").is_none());
    assert!(decode_frames(&[]).is_none());
    // A PNG signature with a broken body: the format is guessed, decoding fails.
    let mut broken = png_bytes(1, 1, &[1, 2, 3, 4]);
    broken.truncate(20);
    assert!(decode_frames(&broken).is_none());
}

#[test]
fn decoding_always_marks_loaded() {
    let (s, loaded) = after_decode::<u8, u8>(TextureState::OnGpu(vec![(0, 1)]), None);
    assert!(loaded);
    assert!(matches!(s, TextureState::OnGpu(ref v) if v == &vec![(0, 1)]));
    let (s, loaded) = after_decode::<u8, u8>(TextureState::Empty, Some(vec![(0, 7), (50, 8)]));
    assert!(loaded);
    assert!(matches!(s, TextureState::OnMemory(ref v) if v == &vec![(0, 7), (50, 8)]));
}

#[test]
fn only_success_statuses_read_the_body() {
    for s in [200u16, 204, 299] {
        assert!(matches!(response_action(s), ResponseAction::ReadBody));
    }
    for s in [0u16, 199, 300, 304, 404, 500] {
        assert!(matches!(response_action(s), ResponseAction::MarkLoaded));
    }
}

#[test]
fn second_eviction_finds_nothing() {
    let entries = [(true, 1usize), (false, 0), (true, 5), (true, 2), (false, 9)];
    let first = eviction_targets_of(&entries, 3);
    assert_eq!(first, vec![0, 3]);
    let kept: Vec<(bool, usize)> =
        entries.iter().enumerate().filter(|(i, _)| !first.contains(i)).map(|(_, e)| *e).collect();
    assert!(eviction_targets_of(&kept, 3).is_empty());
    assert!(eviction_targets_of(&[(true, 1), (true, 1)], 1).is_empty());
}

#[test]
fn local_text_ignores_the_given_emojis() {
    let local = vec![("wave".to_string(), "w".to_string())];
    let other = vec![("wave".to_string(), "x".to_string()), ("hi".to_string(), "y".to_string())];
    let a = mfm_plan(":wave: :hi:", None, None, &local, "h");
    let b = mfm_plan(":wave: :hi:", Some(&other), None, &local, "h");
    assert_eq!(format!("{:?}", pieces(&a)), format!("{:?}", pieces(&b)));
}

fn pieces(p: &[yac_model::mfm::MfmPiece]) -> Vec<String> {
    p.iter()
        .map(|x| match x {
            yac_model::mfm::MfmPiece::Text(t) => format!("T{}", t),
            yac_model::mfm::MfmPiece::Emoji { id, url, start, end } => format!("E{} {} {} {}", id, url, start, end),
        })
        .collect()
}
