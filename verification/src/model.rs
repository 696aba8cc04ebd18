use vstd::prelude::*;

use std::sync::Arc;
use std::sync::atomic::AtomicBool;

use crate::instance::{FediverseInstance, opt_string};
use crate::loading::hyphenated_uuid;
use crate::mfm::{
    MfmPiece, PieceView, TokenView, byte_offset, char_starts, emoji_tokens, is_boundary, known_tokens,
    lemma_sort_by_start, mfm_pieces, piece_views, pieces_from, sort_by_start, unique_emoji_id,
};
use crate::reactions::{ReactionEntry, ReactionView, reaction_views};
use crate::text::{chars_of, concat_str, has_prefix, starts_with};
use crate::time::{Timestamp, age_label, label_at, now_timestamp};
use crate::visibility::Visibility;

verus! {

/// An emoji as drawn: the identifier it is cached under and its image.
pub struct Emoji<M> {
    id: String,
    img: M,
}

impl<M> Emoji<M> {
    /// The identifier of the emoji.
    pub closed spec fn spec_id(&self) -> Seq<char> {
        self.id@
    }

    /// The image of the emoji.
    pub closed spec fn spec_img(&self) -> M {
        self.img
    }

    /// The emoji `id` drawn with `img`.
    pub fn new(id: String, img: M) -> (e: Self)
        ensures
            e.spec_id() == id@,
            e.spec_img() == img,
    {
        Emoji { id, img }
    }

    /// The identifier of the emoji.
    pub fn id(&self) -> (s: &str)
        ensures
            s@ == self.spec_id(),
    {
        self.id.as_str()
    }

    /// The image of the emoji.
    pub fn url_image(&self) -> (i: &M)
        ensures
            *i == self.spec_img(),
    {
        &self.img
    }
}

/// An element of rendered MFM text.
pub enum MFMElement<M> {
    Text(String),
    Emoji(Emoji<M>),
}

/// The mathematical value of an `MFMElement`.
pub ghost enum ElementView<M> {
    Text(Seq<char>),
    Emoji(Seq<char>, M),
}

impl<M> MFMElement<M> {
    /// The value of the element.
    pub open spec fn view(&self) -> ElementView<M> {
        match self {
            MFMElement::Text(t) => ElementView::Text(t@),
            MFMElement::Emoji(e) => ElementView::Emoji(e.spec_id(), e.spec_img()),
        }
    }
}

/// The values of a sequence of elements.
pub open spec fn element_views<M>(s: Seq<MFMElement<M>>) -> Seq<ElementView<M>> {
    s.map_values(|e: MFMElement<M>| e.view())
}

/// The number of emoji pieces among `ps`.
pub open spec fn emoji_count(ps: Seq<PieceView>) -> nat
    decreases ps.len(),
{
    if ps.len() == 0 {
        0
    } else {
        emoji_count(ps.drop_last()) + if ps.last() is Emoji {
            1nat
        } else {
            0nat
        }
    }
}

/// The elements that the pieces `ps` become when the emoji pieces get the
/// images `imgs`, in order: text stays text, each emoji keeps its
/// identifier and takes the next image.
pub open spec fn elements_of<M>(ps: Seq<PieceView>, imgs: Seq<M>) -> Seq<ElementView<M>>
    decreases ps.len(),
{
    if ps.len() == 0 {
        seq![]
    } else {
        let init = elements_of(ps.drop_last(), imgs);
        match ps.last() {
            PieceView::Text(t) => init.push(ElementView::Text(t)),
            PieceView::Emoji { id, .. } => init.push(
                ElementView::Emoji(id, imgs[emoji_count(ps.drop_last()) as int]),
            ),
        }
    }
}

/// The images of the emoji elements of `es`, in order.
pub open spec fn emoji_images<M>(es: Seq<ElementView<M>>) -> Seq<M>
    decreases es.len(),
{
    if es.len() == 0 {
        seq![]
    } else {
        let init = emoji_images(es.drop_last());
        match es.last() {
            ElementView::Emoji(_, img) => init.push(img),
            ElementView::Text(_) => init,
        }
    }
}

/// Text in MFM (Misskey Flavored Markdown): the raw text and how it renders.
pub struct MFMString<M> {
    raw: String,
    render: Vec<MFMElement<M>>,
}

impl<M> MFMString<M> {
    /// The raw text.
    pub closed spec fn spec_raw(&self) -> Seq<char> {
        self.raw@
    }

    /// How the text renders.
    pub closed spec fn spec_render(&self) -> Seq<ElementView<M>> {
        element_views(self.render@)
    }

    /// The text `raw` rendered as `pieces` (see `crate::mfm::mfm_plan`),
    /// whose emoji pieces take the images `images`, in order.
    pub fn from_pieces(raw: String, pieces: Vec<MfmPiece>, images: Vec<M>) -> (s: Self)
        requires
            images@.len() == emoji_count(piece_views(pieces@)),
        ensures
            s.spec_raw() == raw@,
            s.spec_render() == elements_of(piece_views(pieces@), images@),
    {
        let ghost pv = piece_views(pieces@);
        let ghost imgs = images@;
        let mut images = images;
        let mut render: Vec<MFMElement<M>> = Vec::new();
        let mut k: usize = 0;
        let ghost mut used: int = 0;
        while k < pieces.len()
            invariant
                k <= pieces@.len(),
                pv == piece_views(pieces@),
                imgs.len() == emoji_count(pv),
                used == emoji_count(pv.take(k as int)),
                images@ == imgs.skip(used),
                element_views(render@) == elements_of(pv.take(k as int), imgs),
            decreases pieces@.len() - k,
        {
            proof {
                assert(pv.take(k + 1).drop_last() =~= pv.take(k as int));
                assert(pv.take(k + 1).last() == pv[k as int]);
                lemma_emoji_count_prefix(pv, k as int);
            }
            let ghost before = render@;
            match &pieces[k] {
                MfmPiece::Text(t) => {
                    render.push(MFMElement::Text(t.clone()));
                },
                MfmPiece::Emoji { id, .. } => {
                    let img = images.remove(0);
                    proof {
                        assert(img == imgs[used]);
                        assert(images@ =~= imgs.skip(used + 1));
                        used = used + 1;
                    }
                    render.push(MFMElement::Emoji(Emoji::new(id.clone(), img)));
                },
            }
            proof {
                assert(element_views(render@) =~= element_views(before).push(render@.last().view()));
            }
            k = k + 1;
        }
        proof {
            assert(pv.take(k as int) =~= pv);
        }
        MFMString { raw, render }
    }

    /// Whether there is nothing to show: the raw text or its rendering is
    /// empty.
    pub fn is_empty(&self) -> (b: bool)
        ensures
            b == (self.spec_raw().len() == 0 || self.spec_render().len() == 0),
    {
        self.raw.as_str().is_empty() || self.render.len() == 0
    }

    /// The raw text.
    pub fn raw(&self) -> (s: &str)
        ensures
            s@ == self.spec_raw(),
    {
        self.raw.as_str()
    }

    /// The rendered elements, in order.
    pub fn elements(&self) -> (e: &[MFMElement<M>])
        ensures
            element_views(e@) == self.spec_render(),
    {
        self.render.as_slice()
    }

    /// The images of the emojis in the text, in order.
    pub fn emojis(&self) -> (v: Vec<&M>)
        ensures
            v@.map_values(|r: &M| *r) == emoji_images(self.spec_render()),
    {
        let ghost es = element_views(self.render@);
        let mut v: Vec<&M> = Vec::new();
        let mut k: usize = 0;
        while k < self.render.len()
            invariant
                k <= self.render@.len(),
                es == element_views(self.render@),
                v@.map_values(|r: &M| *r) == emoji_images(es.take(k as int)),
            decreases self.render@.len() - k,
        {
            proof {
                assert(es.take(k + 1).drop_last() =~= es.take(k as int));
                assert(es.take(k + 1).last() == es[k as int]);
            }
            let ghost before = v@;
            match &self.render[k] {
                MFMElement::Emoji(e) => {
                    v.push(e.url_image());
                    proof {
                        assert(v@.map_values(|r: &M| *r) =~= before.map_values(|r: &M| *r).push(
                            e.spec_img(),
                        ));
                    }
                },
                MFMElement::Text(_) => {},
            }
            k = k + 1;
        }
        proof {
            assert(es.take(k as int) =~= es);
        }
        v
    }
}

proof fn lemma_emoji_count_prefix(ps: Seq<PieceView>, k: int)
    requires
        0 <= k < ps.len(),
    ensures
        emoji_count(ps.take(k + 1)) == emoji_count(ps.take(k)) + if ps[k] is Emoji {
            1nat
        } else {
            0nat
        },
        emoji_count(ps.take(k + 1)) <= emoji_count(ps),
{
    assert(ps.take(k + 1).drop_last() =~= ps.take(k));
    lemma_emoji_count_monotone(ps, k + 1);
}

proof fn lemma_emoji_count_monotone(ps: Seq<PieceView>, k: int)
    requires
        0 <= k <= ps.len(),
    ensures
        emoji_count(ps.take(k)) <= emoji_count(ps),
    decreases ps.len() - k,
{
    if k < ps.len() {
        lemma_emoji_count_monotone(ps, k + 1);
        assert(ps.take(k + 1).drop_last() =~= ps.take(k));
    } else {
        assert(ps.take(k) =~= ps);
    }
}

/// The reactions to a note: each known emoji with its count, most first,
/// and the total count over them.
pub struct Reactions<M> {
    pub emojis: Vec<(Emoji<M>, u64)>,
    pub all: u128,
}

impl<M> Reactions<M> {
    /// The reactions `entries` (see `crate::reactions::plan_reactions`)
    /// drawn with `images`, one per entry in order, totalling `all`.
    pub fn from_entries(entries: Vec<ReactionEntry>, images: Vec<M>, all: u128) -> (r: Self)
        requires
            images@.len() == entries@.len(),
        ensures
            r.all == all,
            r.emojis@.len() == entries@.len(),
            forall|k: int|
                0 <= k < entries@.len() ==> (#[trigger] r.emojis@[k]).0.spec_id() == entries@[k].id@
                    && r.emojis@[k].0.spec_img() == images@[k] && r.emojis@[k].1
                    == entries@[k].count,
    {
        let ghost imgs = images@;
        let mut images = images;
        let mut emojis: Vec<(Emoji<M>, u64)> = Vec::new();
        let mut k: usize = 0;
        while k < entries.len()
            invariant
                k <= entries@.len(),
                imgs.len() == entries@.len(),
                images@ == imgs.skip(k as int),
                emojis@.len() == k,
                forall|j: int|
                    0 <= j < k ==> (#[trigger] emojis@[j]).0.spec_id() == entries@[j].id@
                        && emojis@[j].0.spec_img() == imgs[j] && emojis@[j].1 == entries@[j].count,
            decreases entries@.len() - k,
        {
            let img = images.remove(0);
            proof {
                assert(img == imgs[k as int]);
                assert(images@ =~= imgs.skip(k + 1));
            }
            let e = &entries[k];
            emojis.push((Emoji::new(e.id.clone(), img), e.count));
            k = k + 1;
        }
        Reactions { emojis, all }
    }

    /// No reactions.
    pub fn empty() -> (r: Self)
        ensures
            r.emojis@.len() == 0,
            r.all == 0,
    {
        Reactions { emojis: Vec::new(), all: 0 }
    }

    /// The images of the reaction emojis, in order.
    pub fn emojis(&self) -> (v: Vec<&M>)
        ensures
            v@.len() == self.emojis@.len(),
            forall|k: int| 0 <= k < v@.len() ==> *v@[k] == (#[trigger] self.emojis@[k]).0.spec_img(),
    {
        let mut v: Vec<&M> = Vec::new();
        let mut k: usize = 0;
        while k < self.emojis.len()
            invariant
                k <= self.emojis@.len(),
                v@.len() == k,
                forall|j: int| 0 <= j < k ==> *v@[j] == (#[trigger] self.emojis@[j]).0.spec_img(),
            decreases self.emojis@.len() - k,
        {
            v.push(self.emojis[k].0.url_image());
            k = k + 1;
        }
        v
    }
}

/// A user as shown: name, display name, home instance (none for the local
/// instance) and icon.
pub struct UserProfile<M> {
    pub id: String,
    pub username: String,
    pub display_name: MFMString<M>,
    pub instance: Option<Arc<FediverseInstance<M>>>,
    pub icon: M,
}

impl<M> UserProfile<M> {
    /// The user `id` with the given name, display name, instance and icon.
    pub fn new(
        id: String,
        username: String,
        display_name: MFMString<M>,
        instance: Option<Arc<FediverseInstance<M>>>,
        icon: M,
    ) -> (u: Self)
        ensures
            u.id == id,
            u.username == username,
            u.display_name == display_name,
            u.instance == instance,
            u.icon == icon,
    {
        UserProfile { id, username, display_name, instance, icon }
    }
}

/// The size a file's image has, as the server reports it.
#[derive(Clone, Copy, Debug)]
pub struct RawFileProperties {
    pub width: Option<u32>,
    pub height: Option<u32>,
}

/// What the server tells about a file attached to a note.
#[derive(Clone, Debug)]
pub struct RawFile {
    pub mime_type: Option<String>,
    pub thumbnail_url: Option<String>,
    pub blurhash: Option<String>,
    pub properties: Option<RawFileProperties>,
    pub is_sensitive: bool,
    pub url: Option<String>,
}

/// The digits of base 83 as blurhashes write them, in order of value.
pub open spec fn base83_alphabet() -> Seq<char> {
    seq!['0', '1', '2', '3', '4', '5', '6', '7', '8', '9', 'A', 'B', 'C', 'D', 'E', 'F', 'G', 'H', 'I', 'J', 'K', 'L', 'M', 'N', 'O', 'P', 'Q', 'R', 'S', 'T', 'U', 'V', 'W', 'X', 'Y', 'Z', 'a', 'b', 'c', 'd', 'e', 'f', 'g', 'h', 'i', 'j', 'k', 'l', 'm', 'n', 'o', 'p', 'q', 'r', 's', 't', 'u', 'v', 'w', 'x', 'y', 'z', '#', '$', '%', '*', '+', ',', '-', '.', ':', ';', '=', '?', '@', '[', ']', '^', '_', '{', '|', '}', '~']
}

/// The value of `c` as a base-83 digit; a character that is no digit counts
/// as 0.
pub open spec fn base83_digit(c: char) -> int {
    match base83_alphabet().index_of_first(c) {
        Some(i) => i,
        None => 0,
    }
}

/// The length in bytes of a blurhash whose first character is `c`: that
/// character gives the numbers of components across and down, and the hash
/// holds four bytes plus two for each component.
pub open spec fn blurhash_len_for(c: char) -> int {
    let flag = base83_digit(c);
    4 + 2 * ((flag % 9) + 1) * ((flag / 9) + 1)
}

/// Whether `blurhash_wasm` reads the hash `s` without cutting a character
/// apart: a hash shorter than six bytes is refused at once; else its first
/// byte is cut off, which must end a character; a hash of another length
/// than its first character announces is then refused; one of that length
/// is cut at bytes 2 and 6 and at every second byte after, up to its end.
pub open spec fn blurhash_cuttable(s: Seq<char>) -> bool {
    let n = byte_offset(s, s.len() as int);
    n < 6 || (is_boundary(s, 1) && (n != blurhash_len_for(s[0]) || (is_boundary(s, 2)
        && forall|b: int| 6 <= b <= n && b % 2 == 0 ==> #[trigger] is_boundary(s, b))))
}

fn base83_digit_of(c: char) -> (d: usize)
    ensures
        d == base83_digit(c),
        d < 83,
{
    let alphabet: [char; 83] = ['0', '1', '2', '3', '4', '5', '6', '7', '8', '9', 'A', 'B', 'C', 'D', 'E', 'F', 'G', 'H', 'I', 'J', 'K', 'L', 'M', 'N', 'O', 'P', 'Q', 'R', 'S', 'T', 'U', 'V', 'W', 'X', 'Y', 'Z', 'a', 'b', 'c', 'd', 'e', 'f', 'g', 'h', 'i', 'j', 'k', 'l', 'm', 'n', 'o', 'p', 'q', 'r', 's', 't', 'u', 'v', 'w', 'x', 'y', 'z', '#', '$', '%', '*', '+', ',', '-', '.', ':', ';', '=', '?', '@', '[', ']', '^', '_', '{', '|', '}', '~'];
    proof {
        assert(alphabet@ =~= base83_alphabet());
    }
    let mut i: usize = 0;
    while i < 83
        invariant
            i <= 83,
            alphabet@ == base83_alphabet(),
            forall|j: int| 0 <= j < i ==> alphabet@[j] != c,
        decreases 83 - i,
    {
        if alphabet[i] == c {
            proof {
                base83_alphabet().index_of_first_ensures(c);
                let f = base83_alphabet().index_of_first(c)->0;
                if f < i {
                    assert(alphabet@[f] != c);
                }
                if f > i {
                    assert(base83_alphabet()[i as int] != c);
                }
            }
            return i;
        }
        i = i + 1;
    }
    proof {
        base83_alphabet().index_of_first_ensures(c);
        if base83_alphabet().contains(c) {
            let f = choose|f: int| 0 <= f < base83_alphabet().len() && base83_alphabet()[f] == c;
            assert(alphabet@[f] == c);
        }
    }
    0
}

/// Whether `blurhash_wasm` reads the hash `hash` without cutting a
/// character apart (see `blurhash_cuttable`).
pub fn blurhash_cuttable_of(hash: &str) -> (b: bool)
    ensures
        b == blurhash_cuttable(hash@),
{
    let rc = chars_of(hash);
    let marks = char_starts(rc.as_slice());
    let n = marks.len() - 1;
    if n < 6 {
        return true;
    }
    if marks[1].is_none() {
        return false;
    }
    proof {
        if rc@.len() == 0 {
            assert(false);
        }
    }
    let d = base83_digit_of(rc[0]);
    assert((d % 9 + 1) * (d / 9 + 1) <= 90) by (nonlinear_arith)
        requires
            d < 83,
    ;
    let expected: usize = 4 + 2 * ((d % 9 + 1) * (d / 9 + 1));
    assert(expected == blurhash_len_for(rc@[0])) by (nonlinear_arith)
        requires
            expected == 4 + 2 * ((d % 9 + 1) * (d / 9 + 1)),
            d == base83_digit(rc@[0]),
    ;
    if n != expected {
        return true;
    }
    if marks[2].is_none() {
        return false;
    }
    let mut b: usize = 6;
    while b <= n
        invariant
            6 <= b <= n + 2,
            b % 2 == 0,
            n + 1 == marks@.len(),
            n == expected,
            expected == blurhash_len_for(rc@[0]),
            rc@ == hash@,
            rc@.len() > 0,
            is_boundary(rc@, 1),
            is_boundary(rc@, 2),
            n <= 184,
            n == byte_offset(rc@, rc@.len() as int),
            forall|c: int| 0 <= c < marks@.len() ==> (marks@[c] is Some <==> is_boundary(rc@, c)),
            forall|c: int| 6 <= c < b && c % 2 == 0 ==> #[trigger] is_boundary(rc@, c),
        decreases n + 2 - b,
    {
        if marks[b].is_none() {
            proof {
                assert(!is_boundary(rc@, b as int));
            }
            return false;
        }
        b = b + 2;
    }
    true
}

/// The pixels (RGBA, row by row) that the blurhash `hash` decodes to at
/// `width` by `height`, or `None` when the hash is malformed.
pub uninterp spec fn blurhash_pixels(hash: Seq<char>, width: usize, height: usize) -> Option<
    Seq<u8>,
>;

/// `blurhash_wasm::decode`: the pixels of the blurhash `hash` at the given
/// size, `None` where it reports an error (a hash of the wrong length).
#[verifier::external_body]
fn blurhash_decode(hash: &str, width: usize, height: usize) -> (r: Option<Vec<u8>>)
    requires
        blurhash_cuttable(hash@),
    ensures
        r matches Some(v) ==> blurhash_pixels(hash@, width, height) == Some(v@),
        r is None ==> blurhash_pixels(hash@, width, height) is None,
{
    blurhash_wasm::decode(hash, width, height).ok()
}

/// `image/`, how the media type of an image begins.
pub open spec fn image_prefix() -> Seq<char> {
    seq!['i', 'm', 'a', 'g', 'e', '/']
}

/// Whether a file with this media type and thumbnail is shown as an image.
pub open spec fn shows_image(mime_type: Option<Seq<char>>, thumbnail: Option<Seq<char>>) -> bool {
    (mime_type matches Some(m) && has_prefix(m, image_prefix())) && thumbnail is Some
}

/// The side of the blurred preview for an image side of `n` pixels: a
/// tenth of it, at least 1.
pub open spec fn preview_side(n: u32) -> u32 {
    if n / 10 >= 1 {
        n / 10
    } else {
        1
    }
}

/// The blurred preview to decode for a file: its hash and the preview size,
/// when it has a hash and a known width and height.
pub open spec fn blurhash_request(value: RawFile) -> Option<(Seq<char>, u32, u32)> {
    match (value.blurhash, value.properties) {
        (Some(h), Some(p)) => match (p.width, p.height) {
            (Some(w), Some(hh)) => Some((h@, preview_side(w), preview_side(hh))),
            _ => None,
        },
        _ => None,
    }
}

/// `blurhash://`, how the name of a blurred preview begins.
pub open spec fn blurhash_scheme() -> Seq<char> {
    seq!['b', 'l', 'u', 'r', 'h', 'a', 's', 'h', ':', '/', '/']
}

/// A file attached to a note: its image (when it is one), its address, its
/// blurred preview, and whether it is sensitive and shown anyway.
pub struct NoteFile<M> {
    pub img: Option<M>,
    pub original_url: Option<String>,
    pub blurhash: Option<M>,
    pub is_sensitive: bool,
    pub show_sensitive: Arc<AtomicBool>,
}

impl<M> NoteFile<M> {
    /// The file that `value` describes. `make_image` turns the address of
    /// its thumbnail into an image; `make_preview` turns the name, width,
    /// height and pixels of its blurred preview into an image, or gives
    /// `None` when they do not make one.
    pub fn from_raw<F: FnOnce(String) -> M, G: FnOnce(String, u32, u32, Vec<u8>) -> Option<M>>(
        value: &RawFile,
        make_image: F,
        make_preview: G,
    ) -> (f: Self)
        requires
            blurhash_request(*value) matches Some((h, _, _)) ==> blurhash_cuttable(h),
            forall|u: String| make_image.requires((u,)),
            forall|n: String, w: u32, h: u32, px: Vec<u8>| make_preview.requires((n, w, h, px)),
        ensures
            f.is_sensitive == value.is_sensitive,
            f.original_url == value.url,
            shows_image(opt_string(value.mime_type), opt_string(value.thumbnail_url)) ==> (
            f.img matches Some(m) && exists|u: String|
                Some(u@) == opt_string(value.thumbnail_url) && make_image.ensures((u,), m)),
            !shows_image(opt_string(value.mime_type), opt_string(value.thumbnail_url))
                ==> f.img is None,
            match blurhash_request(*value) {
                Some((h, w, hh)) => match blurhash_pixels(h, w as usize, hh as usize) {
                    Some(px) => exists|n: String, v: Vec<u8>|
                        n@ == blurhash_scheme() + h && v@ == px && make_preview.ensures(
                            (n, w, hh, v),
                            f.blurhash,
                        ),
                    None => f.blurhash is None,
                },
                None => f.blurhash is None,
            },
    {
        let image_prefix: [char; 6] = ['i', 'm', 'a', 'g', 'e', '/'];
        proof {
            assert(image_prefix@ =~= crate::model::image_prefix());
        }
        let is_image = match &value.mime_type {
            Some(m) => {
                let mc = chars_of(m.as_str());
                starts_with(mc.as_slice(), image_prefix.as_slice())
            },
            None => false,
        };
        let img = if is_image {
            match &value.thumbnail_url {
                Some(u) => Some(make_image(u.clone())),
                None => None,
            }
        } else {
            None
        };
        let blurhash = match (&value.blurhash, &value.properties) {
            (Some(h), Some(p)) => match (p.width, p.height) {
                (Some(w), Some(hh)) => {
                    let pw: u32 = if w / 10 >= 1 { w / 10 } else { 1 };
                    let ph: u32 = if hh / 10 >= 1 { hh / 10 } else { 1 };
                    match blurhash_decode(h.as_str(), pw as usize, ph as usize) {
                        Some(px) => {
                            let name = concat_str("blurhash://", h.as_str());
                            proof {
                                reveal_strlit("blurhash://");
                            }
                            make_preview(name, pw, ph, px)
                        },
                        None => None,
                    }
                },
                _ => None,
            },
            _ => None,
        };
        NoteFile {
            img,
            original_url: value.url.clone(),
            blurhash,
            is_sensitive: value.is_sensitive,
            show_sensitive: Arc::new(AtomicBool::new(false)),
        }
    }

    /// Whether the file is shown as an image.
    pub fn is_image(&self) -> (b: bool)
        ensures
            b == self.img is Some,
    {
        self.img.is_some()
    }

    /// The image of the file, when it is shown as one.
    pub fn img(&self) -> (i: Option<&M>)
        ensures
            i matches Some(m) ==> self.img == Some(*m),
            i is None ==> self.img is None,
    {
        match &self.img {
            Some(m) => Some(m),
            None => None,
        }
    }
}

/// A note as shown: who wrote it, what it quotes, its text, visibility,
/// reactions, files, content warning and when it was written.
pub struct Note<M> {
    pub id: String,
    pub user: Arc<UserProfile<M>>,
    pub quote: Option<Arc<Note<M>>>,
    pub text: MFMString<M>,
    pub visibility: Visibility,
    pub reactions: Reactions<M>,
    pub files: Vec<NoteFile<M>>,
    pub cw: Option<MFMString<M>>,
    pub created_at: Timestamp,
}

/// Whether two notes count as the same for redrawing: same identifier,
/// same reaction total, both quoting or both not, and written at the same
/// time.
pub open spec fn same_note<M>(a: &Note<M>, b: &Note<M>) -> bool {
    &&& a.id@ == b.id@
    &&& a.reactions.all == b.reactions.all
    &&& a.quote.is_some() == b.quote.is_some()
    &&& a.created_at == b.created_at
}

impl<M> PartialEq for Note<M> {
    fn eq(&self, other: &Self) -> (r: bool) {
        self.id == other.id && self.reactions.all == other.reactions.all && self.quote.is_some()
            == other.quote.is_some() && self.created_at == other.created_at
    }
}

impl<M> vstd::std_specs::cmp::PartialEqSpecImpl for Note<M> {
    open spec fn obeys_eq_spec() -> bool {
        true
    }

    open spec fn eq_spec(&self, other: &Self) -> bool {
        same_note(self, other)
    }
}

/// A random identifier: the text form of a version-4 UUID
/// (`uuid::Uuid::new_v4().to_string()`). It is random, so only its form is
/// stated: hyphenated lowercase hex, version digit `4`, standard variant.
#[verifier::external_body]
fn random_uuid() -> (s: String)
    ensures
        hyphenated_uuid(s@, '4'),
{
    uuid::Uuid::new_v4().to_string()
}

/// `system`, the name of the user that posts system messages.
pub open spec fn system_name() -> Seq<char> {
    seq!['s', 'y', 's', 't', 'e', 'm']
}

impl<M> Note<M> {
    /// How long ago the note was written, as a label such as `3日前`,
    /// measured against the current time.
    pub fn created_at_label(&self) -> (s: String)
        ensures
            exists|now: i64| s@ == #[trigger] label_at(now, self.created_at),
    {
        let now = now_timestamp();
        age_label(now.secs, self.created_at)
    }

    /// A public note of the system user (named `name`, with icon `icon`)
    /// that says `text`, written now, under a fresh random identifier (the
    /// text of a version-4 UUID).
    pub fn system_message(text: MFMString<M>, name: MFMString<M>, icon: M) -> (n: Self)
        ensures
            n.user.id@ == system_name(),
            n.user.username@ == system_name(),
            n.user.display_name == name,
            n.user.instance is None,
            n.user.icon == icon,
            n.quote is None,
            n.text == text,
            n.visibility == Visibility::Public,
            n.reactions.emojis@.len() == 0,
            n.reactions.all == 0,
            n.files@.len() == 0,
            n.cw is None,
            hyphenated_uuid(n.id@, '4'),
    {
        proof {
            reveal_strlit("system");
        }
        let created_at = now_timestamp();
        let id = random_uuid();
        let user = UserProfile::new(
            String::from_str("system"),
            String::from_str("system"),
            name,
            None,
            icon,
        );
        Note {
            created_at,
            id,
            user: Arc::new(user),
            quote: None,
            text,
            visibility: Visibility::Public,
            reactions: Reactions::empty(),
            files: Vec::new(),
            cw: None,
        }
    }
}

/// Law: an MFM string built from pieces and images gives back exactly those
/// images, in order, as its emojis.
pub proof fn law_mfm_emojis_are_given_images<M>(ps: Seq<PieceView>, imgs: Seq<M>)
    requires
        imgs.len() == emoji_count(ps),
    ensures
        emoji_images(elements_of(ps, imgs)) == imgs,
{
    lemma_emoji_images_prefix(ps, imgs);
    assert(imgs.take(imgs.len() as int) =~= imgs);
}

proof fn lemma_emoji_images_prefix<M>(ps: Seq<PieceView>, imgs: Seq<M>)
    requires
        emoji_count(ps) <= imgs.len(),
    ensures
        emoji_images(elements_of(ps, imgs)) == imgs.take(emoji_count(ps) as int),
    decreases ps.len(),
{
    if ps.len() == 0 {
        assert(imgs.take(0) =~= Seq::<M>::empty());
    } else {
        let init = ps.drop_last();
        lemma_emoji_images_prefix(init, imgs);
        let es = elements_of(ps, imgs);
        assert(es.drop_last() =~= elements_of(init, imgs));
        match ps.last() {
            PieceView::Text(_) => {},
            PieceView::Emoji { .. } => {
                let c = emoji_count(init) as int;
                assert(imgs.take(c + 1) =~= imgs.take(c).push(imgs[c]));
            },
        }
    }
}

/// Law: notes compare as an equivalence: every note equals itself, and
/// equality is symmetric and transitive.
pub proof fn law_note_eq_is_equivalence<M>(a: &Note<M>, b: &Note<M>, c: &Note<M>)
    ensures
        same_note(a, a),
        same_note(a, b) == same_note(b, a),
        same_note(a, b) && same_note(b, c) ==> same_note(a, c),
{
}

proof fn lemma_emoji_count_concat(a: Seq<PieceView>, b: Seq<PieceView>)
    ensures
        emoji_count(a + b) == emoji_count(a) + emoji_count(b),
    decreases b.len(),
{
    if b.len() > 0 {
        assert((a + b).drop_last() =~= a + b.drop_last());
        lemma_emoji_count_concat(a, b.drop_last());
    } else {
        assert(a + b =~= a);
    }
}

proof fn lemma_emoji_count_one(p: PieceView)
    ensures
        emoji_count(seq![p]) == if p is Emoji {
            1nat
        } else {
            0nat
        },
{
    let one = seq![p];
    assert(one.drop_last() =~= Seq::<PieceView>::empty());
    assert(emoji_count(one.drop_last()) == 0);
    assert(one.last() == p);
}

proof fn lemma_pieces_emoji_count(r: Seq<char>, toks: Seq<TokenView>, offset: int, suffix: Seq<char>)
    ensures
        emoji_count(pieces_from(r, toks, offset, suffix)) == toks.len(),
    decreases toks.len(),
{
    if toks.len() == 0 {
        if offset < r.len() {
            lemma_emoji_count_one(PieceView::Text(r.subrange(offset, r.len() as int)));
        }
    } else {
        let t = toks[0];
        let before = if offset < t.start {
            seq![PieceView::Text(r.subrange(offset, t.start))]
        } else {
            seq![]
        };
        let e = PieceView::Emoji {
            id: unique_emoji_id(t.id, suffix),
            url: t.url,
            start: t.start,
            end: t.start + t.len,
        };
        let rest = pieces_from(r, toks.drop_first(), t.start + t.len, suffix);
        lemma_pieces_emoji_count(r, toks.drop_first(), t.start + t.len, suffix);
        lemma_emoji_count_concat(before + seq![e], rest);
        lemma_emoji_count_concat(before, seq![e]);
        lemma_emoji_count_one(e);
        if offset < t.start {
            lemma_emoji_count_one(PieceView::Text(r.subrange(offset, t.start)));
        }
    }
}

/// Law: every emoji found in MFM text becomes one emoji element: the custom
/// emojis named in the text and the Unicode emojis matched in it, no more
/// and no fewer.
pub proof fn law_mfm_one_piece_per_emoji(
    r: Seq<char>,
    known: Seq<(Seq<char>, Seq<char>)>,
    spans: Seq<(usize, usize)>,
    suffix: Seq<char>,
    local_instance: Seq<char>,
)
    ensures
        emoji_count(mfm_pieces(r, known, spans, suffix, local_instance)) == known_tokens(
            r,
            known,
        ).len() + emoji_tokens(r, spans, local_instance).len(),
{
    let toks = known_tokens(r, known) + emoji_tokens(r, spans, local_instance);
    lemma_sort_by_start(toks);
    lemma_pieces_emoji_count(r, sort_by_start(toks), 0, suffix);
}

} // verus!
