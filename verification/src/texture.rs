use vstd::prelude::*;

verus! {

/// Where the frames of an image are: decoded in memory (`A`), uploaded to
/// the GPU (`B`), or nowhere yet. Each frame carries the time in
/// milliseconds at which it starts.
pub enum TextureState<A, B> {
    OnMemory(Vec<(u32, A)>),
    OnGpu(Vec<(u32, B)>),
    Empty,
}

impl<A, B> TextureState<A, B> {
    /// Takes the decoded frames out, leaving nothing behind; anything else
    /// stays as it is and gives `None`.
    pub fn take_memory(&mut self) -> (r: Option<Vec<(u32, A)>>)
        ensures
            *old(self) matches TextureState::OnMemory(v) ==> r == Some(v) && *final(self)
                is Empty,
            !(*old(self) is OnMemory) ==> r is None && *final(self) == *old(self),
    {
        if let TextureState::OnMemory(_) = self {
        } else {
            return None;
        }
        let mut t = TextureState::Empty;
        std::mem::swap(&mut t, self);
        match t {
            TextureState::OnMemory(t) => Some(t),
            TextureState::OnGpu(_) => None,
            TextureState::Empty => None,
        }
    }

    /// Takes the uploaded frames out, leaving nothing behind; anything else
    /// stays as it is and gives `None`.
    pub fn take_gpu(&mut self) -> (r: Option<Vec<(u32, B)>>)
        ensures
            *old(self) matches TextureState::OnGpu(v) ==> r == Some(v) && *final(self) is Empty,
            !(*old(self) is OnGpu) ==> r is None && *final(self) == *old(self),
    {
        if let TextureState::OnGpu(_) = self {
        } else {
            return None;
        }
        let mut t = TextureState::Empty;
        std::mem::swap(&mut t, self);
        match t {
            TextureState::OnMemory(_) => None,
            TextureState::OnGpu(t) => Some(t),
            TextureState::Empty => None,
        }
    }

    /// Whether the frames are decoded in memory.
    pub fn is_on_memory(&self) -> (b: bool)
        ensures
            b == (*self is OnMemory),
    {
        if let TextureState::OnMemory(_) = self {
            true
        } else {
            false
        }
    }

    /// The name of the state, for debugging output.
    pub fn state_name(&self) -> (s: &'static str)
        ensures
            *self is OnMemory ==> s@ == seq!['O', 'n', 'M', 'e', 'm', 'o', 'r', 'y'],
            *self is OnGpu ==> s@ == seq!['O', 'n', 'G', 'p', 'u'],
            *self is Empty ==> s@ == seq!['N', 'o', 'n', 'e'],
    {
        proof {
            reveal_strlit("OnMemory");
            reveal_strlit("OnGpu");
            reveal_strlit("None");
        }
        match self {
            TextureState::OnMemory(_) => "OnMemory",
            TextureState::OnGpu(_) => "OnGpu",
            TextureState::Empty => "None",
        }
    }
}

impl<A, B> Default for TextureState<A, B> {
    fn default() -> (r: Self)
        ensures
            r is Empty,
    {
        TextureState::Empty
    }
}

/// The frame shown `animate_ms` milliseconds into an animation whose frames
/// start at `times`: time runs modulo the start of the last frame (staying
/// at 0 when that is 0), and the frame shown is the last one that started
/// strictly before that time, or the last frame when none did.
pub open spec fn frame_at(times: Seq<u32>, animate_ms: u64) -> Option<int> {
    if times.len() == 0 {
        None
    } else {
        let last = times.last();
        let t: int = if last > 0 {
            animate_ms as int % last as int
        } else {
            0
        };
        if exists|i: int| 0 <= i < times.len() && t > times[i] {
            Some(choose|i: int| 0 <= i < times.len() && t > times[i] && forall|j: int|
                i < j < times.len() ==> !(t > times[j]))
        } else {
            Some(times.len() - 1)
        }
    }
}

/// The start times of frames.
pub open spec fn frame_times<B>(frames: Seq<(u32, B)>) -> Seq<u32> {
    frames.map_values(|f: (u32, B)| f.0)
}

/// The index of the frame shown `animate_ms` milliseconds into the
/// animation `frames` (see `frame_at`).
pub fn frame_index<B>(frames: &[(u32, B)], animate_ms: u64) -> (r: Option<usize>)
    ensures
        r matches Some(i) ==> frame_at(frame_times(frames@), animate_ms) == Some(i as int),
        r is None ==> frame_at(frame_times(frames@), animate_ms) is None,
{
    let ghost times = frame_times(frames@);
    let n = frames.len();
    if n == 0 {
        return None;
    }
    let last = frames[n - 1].0;
    let t: u64 = if last > 0 {
        animate_ms % (last as u64)
    } else {
        0
    };
    let mut chosen: usize = n - 1;
    let mut found = false;
    let mut i: usize = 0;
    while i < n
        invariant
            n == frames@.len(),
            times == frame_times(frames@),
            i <= n,
            chosen < n,
            found ==> (t > times[chosen as int] && chosen < i && forall|j: int|
                chosen < j < i ==> !(t > times[j])),
            !found ==> chosen == n - 1 && forall|j: int| 0 <= j < i ==> !(t > times[j]),
        decreases n - i,
    {
        if t > frames[i].0 as u64 {
            chosen = i;
            found = true;
        }
        i = i + 1;
    }
    proof {
        if found {
            assert(exists|k: int| 0 <= k < times.len() && t > times[k]) by {
                assert(t > times[chosen as int]);
            }
            let c = choose|k: int|
                0 <= k < times.len() && t > times[k] && forall|j: int|
                    k < j < times.len() ==> !(t > times[j]);
            assert(0 <= chosen < times.len() && t > times[chosen as int] && forall|j: int|
                chosen < j < times.len() ==> !(t > times[j]));
            if c < chosen {
                assert(!(t > times[chosen as int]));
            } else if c > chosen {
                assert(!(t > times[c]));
            }
        }
    }
    Some(chosen)
}

/// The frames to upload: all of them when animating, the first one alone
/// otherwise; `None` when there are none.
pub fn frames_to_upload<A>(frames: Vec<(u32, A)>, animate: bool) -> (r: Option<Vec<(u32, A)>>)
    ensures
        frames@.len() == 0 ==> r is None,
        frames@.len() > 0 && animate ==> r == Some(frames),
        frames@.len() > 0 && !animate ==> (r matches Some(v) && v@ == seq![frames@[0]]),
{
    if frames.len() == 0 {
        return None;
    }
    if animate {
        Some(frames)
    } else {
        let mut frames = frames;
        let first = frames.remove(0);
        let mut v: Vec<(u32, A)> = Vec::new();
        v.push(first);
        Some(v)
    }
}

/// Law: the frame shown is always one of the frames, and there is one
/// exactly when there are frames.
pub proof fn law_frame_in_range(times: Seq<u32>, animate_ms: u64)
    ensures
        frame_at(times, animate_ms) is Some <==> times.len() > 0,
        frame_at(times, animate_ms) matches Some(i) ==> 0 <= i < times.len(),
{
    if times.len() > 0 {
        let last = times.last();
        let t: int = if last > 0 {
            animate_ms as int % last as int
        } else {
            0
        };
        if exists|i: int| 0 <= i < times.len() && t > times[i] {
            let w = choose|i: int| 0 <= i < times.len() && t > times[i];
            let m = lemma_last_below(times, t, w);
        }
    }
}

proof fn lemma_last_below(times: Seq<u32>, t: int, w: int) -> (m: int)
    requires
        0 <= w < times.len(),
        t > times[w],
    ensures
        0 <= m < times.len(),
        t > times[m],
        forall|j: int| m < j < times.len() ==> !(t > times[j]),
    decreases times.len() - w,
{
    if exists|j: int| w < j < times.len() && t > times[j] {
        let j = choose|j: int| w < j < times.len() && t > times[j];
        lemma_last_below(times, t, j)
    } else {
        w
    }
}

/// One decoded frame: when it starts (in milliseconds), its size, and its
/// pixels as RGBA bytes, row by row.
pub struct RgbaFrame {
    pub time_ms: u32,
    pub width: u32,
    pub height: u32,
    pub rgba: Vec<u8>,
}

/// The value of a frame: start time, width, height and pixels.
pub open spec fn frame_value(f: RgbaFrame) -> (u32, u32, u32, Seq<u8>) {
    (f.time_ms, f.width, f.height, f.rgba@)
}

/// The values of a sequence of frames.
pub open spec fn frame_values(s: Seq<RgbaFrame>) -> Seq<(u32, u32, u32, Seq<u8>)> {
    s.map_values(|f: RgbaFrame| frame_value(f))
}

/// Whether `image` recognises the format of `bytes` from their first bytes:
/// `Some(true)` for WebP, `Some(false)` for another format, `None` when it
/// recognises none.
pub uninterp spec fn guessed_webp(bytes: Seq<u8>) -> Option<bool>;

/// The frames (start time, width, height, RGBA pixels) that the WebP
/// animation decoder of `webp` gives for `bytes`, or `None` when it fails.
pub uninterp spec fn webp_frames(bytes: Seq<u8>) -> Option<Seq<(u32, u32, u32, Seq<u8>)>>;

/// The width, height and RGBA pixels of the still image that `image`
/// decodes from `bytes` in the format it guesses for them, or `None` when it
/// guesses none or decoding fails.
pub uninterp spec fn still_image(bytes: Seq<u8>) -> Option<(u32, u32, Seq<u8>)>;

/// `image::guess_format`, telling WebP apart from the other formats it
/// recognises; `None` where it reports an error.
#[verifier::external_body]
fn guess_webp(bytes: &[u8]) -> (r: Option<bool>)
    ensures
        r == guessed_webp(bytes@),
{
    match image::guess_format(bytes) {
        Ok(image::ImageFormat::WebP) => Some(true),
        Ok(_) => Some(false),
        Err(_) => None,
    }
}

/// `webp::AnimDecoder::decode`: the frames of the animation in `bytes`, each
/// with its timestamp (`get_time_ms() as u32`) and its pixels as RGBA
/// (through `image::DynamicImage`); `None` where decoding reports an error.
#[verifier::external_body]
fn decode_webp_animation(bytes: &[u8]) -> (r: Option<Vec<RgbaFrame>>)
    ensures
        r matches Some(v) ==> webp_frames(bytes@) == Some(frame_values(v@)),
        r is None ==> webp_frames(bytes@) is None,
{
    let anim = webp::AnimDecoder::new(bytes).decode().ok()?;
    let mut frames = Vec::new();
    for f in anim.into_iter() {
        let img = image::DynamicImage::from(&f).into_rgba8();
        let (width, height) = (img.width(), img.height());
        frames.push(RgbaFrame { time_ms: f.get_time_ms() as u32, width, height, rgba: img.into_raw() });
    }
    Some(frames)
}

/// `image::load_from_memory_with_format` in the format that
/// `image::guess_format` gives for `bytes` (the still decoder needs that
/// format, so the guess is made again here), with the result as RGBA;
/// `None` where either reports an error.
#[verifier::external_body]
fn decode_still(bytes: &[u8]) -> (r: Option<(u32, u32, Vec<u8>)>)
    ensures
        r matches Some((w, h, px)) ==> still_image(bytes@) == Some((w, h, px@)),
        r is None ==> still_image(bytes@) is None,
{
    let format = image::guess_format(bytes).ok()?;
    let img = image::load_from_memory_with_format(bytes, format).ok()?.into_rgba8();
    let (width, height) = (img.width(), img.height());
    Some((width, height, img.into_raw()))
}

/// The frames an image file decodes to: a WebP file's animation frames when
/// the animation decoder reads it; else, for any recognised format, the one
/// still image at time 0; nothing when the format is not recognised or the
/// still decoder fails too.
pub open spec fn decoded_frames(bytes: Seq<u8>) -> Option<Seq<(u32, u32, u32, Seq<u8>)>> {
    match guessed_webp(bytes) {
        None => None,
        Some(is_webp) => if is_webp && webp_frames(bytes) is Some {
            webp_frames(bytes)
        } else {
            match still_image(bytes) {
                Some((w, h, px)) => Some(seq![(0u32, w, h, px)]),
                None => None,
            }
        },
    }
}

/// The frames that the image file `bytes` decodes to (see
/// `decoded_frames`).
pub fn decode_frames(bytes: &[u8]) -> (r: Option<Vec<RgbaFrame>>)
    ensures
        r matches Some(v) ==> decoded_frames(bytes@) == Some(frame_values(v@)),
        r is None ==> decoded_frames(bytes@) is None,
{
    let is_webp = match guess_webp(bytes) {
        Some(w) => w,
        None => return None,
    };
    if is_webp {
        if let Some(frames) = decode_webp_animation(bytes) {
            return Some(frames);
        }
    }
    match decode_still(bytes) {
        Some((width, height, rgba)) => {
            let ghost px = rgba@;
            let v = vec![RgbaFrame { time_ms: 0, width, height, rgba }];
            proof {
                assert(frame_values(v@) =~= seq![(0u32, width, height, px)]);
            }
            Some(v)
        },
        None => None,
    }
}

/// The texture state and `loaded` flag after decoding an image: the decoded
/// frames when there are some, the state as it was otherwise; the image
/// counts as loaded either way.
pub fn after_decode<A, B>(state: TextureState<A, B>, frames: Option<Vec<(u32, A)>>) -> (r: (
    TextureState<A, B>,
    bool,
))
    ensures
        r.1,
        frames matches Some(v) ==> r.0 == TextureState::<A, B>::OnMemory(v),
        frames is None ==> r.0 == state,
{
    match frames {
        Some(v) => (TextureState::OnMemory(v), true),
        None => (state, true),
    }
}

} // verus!
