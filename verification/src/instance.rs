use vstd::prelude::*;

use crate::mfm::{byte_offset, char_at_byte, char_starts, is_boundary, utf8_width, utf8_width_of};
use crate::emoji::{hex_digit_lower, hex_digit_upper, hex_lower};
use crate::text::chars_of;
use crate::url::{emoji_proxy_url, emoji_proxy_url_of};

verus! {

/// The address of the placeholder image used where there is no image:
/// `local://dummy.png`.
pub open spec fn dummy_png() -> Seq<char> {
    seq!['l', 'o', 'c', 'a', 'l', ':', '/', '/', 'd', 'u', 'm', 'm', 'y', '.', 'p', 'n', 'g']
}

/// The address of the placeholder image (see `dummy_png`).
pub fn dummy_png_url() -> (s: String)
    ensures
        s@ == dummy_png(),
{
    proof {
        reveal_strlit("local://dummy.png");
    }
    String::from_str("local://dummy.png")
}

/// A color as red, green, blue and alpha bytes.
#[derive(Clone, Copy, Debug, PartialEq, Eq, Structural)]
pub struct Rgba {
    pub r: u8,
    pub g: u8,
    pub b: u8,
    pub a: u8,
}

/// The fully transparent color, the default color.
pub open spec fn transparent() -> Rgba {
    Rgba { r: 0, g: 0, b: 0, a: 0 }
}

/// An opaque color.
pub open spec fn opaque(r: u8, g: u8, b: u8) -> Rgba {
    Rgba { r, g, b, a: 255 }
}

/// What the server tells about an instance.
#[derive(Clone, Debug)]
pub struct RawInstance {
    pub name: Option<String>,
    pub favicon_url: Option<String>,
    pub icon_url: Option<String>,
    pub theme_color: Option<String>,
}

/// The value of an optional string.
pub open spec fn opt_string(s: Option<String>) -> Option<Seq<char>> {
    match s {
        Some(t) => Some(t@),
        None => None,
    }
}

/// The value of a hexadecimal digit character, if it is one (either case).
pub open spec fn hex_value(c: char) -> Option<int> {
    if '0' <= c <= '9' {
        Some(c as int - 48)
    } else if 'a' <= c <= 'f' {
        Some(c as int - 87)
    } else if 'A' <= c <= 'F' {
        Some(c as int - 55)
    } else {
        None
    }
}

/// A byte written as two characters in base 16, read as `u8::from_str_radix`
/// reads it: two hex digits, or a `+` sign and one digit.
pub open spec fn hex_byte(a: char, b: char) -> Option<u8> {
    if a == '+' {
        match hex_value(b) {
            Some(v) => Some(v as u8),
            None => None,
        }
    } else {
        match (hex_value(a), hex_value(b)) {
            (Some(x), Some(y)) => Some((16 * x + y) as u8),
            _ => None,
        }
    }
}

/// The byte that the two bytes of the UTF-8 encoding of `s` from offset `b`
/// are read as, when characters start at `b` and at `b + 2`: two one-byte
/// characters read as `u8::from_str_radix` reads them in base 16
/// (`hex_byte`); nothing for one two-byte character.
pub open spec fn color_field(s: Seq<char>, b: int) -> Option<u8> {
    let i = char_at_byte(s, b);
    if 0 <= i && i + 1 < s.len() && utf8_width(s[i]) == 1 {
        hex_byte(s[i], s[i + 1])
    } else {
        None
    }
}

/// Whether reading a `#rrggbb` color out of `s` cuts no character apart:
/// the fields are cut out at bytes 1 to 3, 3 to 5 and 5 to 7 in turn, and
/// reading stops at the first field that does not read as a byte.
pub open spec fn color_fields_cut(s: Seq<char>) -> bool {
    &&& is_boundary(s, 1)
    &&& is_boundary(s, 3)
    &&& color_field(s, 1) is Some ==> is_boundary(s, 5)
    &&& color_field(s, 1) is Some && color_field(s, 3) is Some ==> is_boundary(s, 7)
}

/// The red, green and blue bytes of a `#rrggbb` color, when its fields
/// after the first character are one-byte characters that read as bytes.
pub open spec fn parse_rgb(s: Seq<char>) -> Option<(u8, u8, u8)> {
    if s.len() >= 7 && forall|i: int| 1 <= i < 7 ==> (s[i] as u32) < 0x80 {
        match (hex_byte(s[1], s[2]), hex_byte(s[3], s[4]), hex_byte(s[5], s[6])) {
            (Some(r), Some(g), Some(b)) => Some((r, g, b)),
            _ => None,
        }
    } else {
        None
    }
}

/// The theme color an instance is drawn with: its `#rrggbb` color when it
/// has one that reads, black when it has none, transparent otherwise.
pub open spec fn theme_color_of(theme: Option<Seq<char>>) -> Rgba {
    let s = match theme {
        Some(t) => t,
        None => seq!['#', '0', '0', '0', '0', '0', '0'],
    };
    match parse_rgb(s) {
        Some((r, g, b)) => opaque(r, g, b),
        None => transparent(),
    }
}

fn hex_value_of(c: char) -> (v: Option<u8>)
    ensures
        v matches Some(x) ==> hex_value(c) == Some(x as int),
        v is None ==> hex_value(c) is None,
{
    if '0' <= c && c <= '9' {
        Some((c as u32 - 48) as u8)
    } else if 'a' <= c && c <= 'f' {
        Some((c as u32 - 87) as u8)
    } else if 'A' <= c && c <= 'F' {
        Some((c as u32 - 55) as u8)
    } else {
        None
    }
}

fn hex_byte_of(a: char, b: char) -> (v: Option<u8>)
    ensures
        v == hex_byte(a, b),
{
    if a == '+' {
        match hex_value_of(b) {
            Some(x) => Some(x),
            None => None,
        }
    } else {
        match (hex_value_of(a), hex_value_of(b)) {
            (Some(x), Some(y)) => Some(16 * x + y),
            _ => None,
        }
    }
}

/// The red, green and blue bytes of a `#rrggbb` color (see `parse_rgb`).
pub fn parse_rgb_of(s: &str) -> (v: Option<(u8, u8, u8)>)
    ensures
        v == parse_rgb(s@),
{
    let c = chars_of(s);
    if c.len() < 7 {
        return None;
    }
    let mut i: usize = 1;
    while i < 7
        invariant
            c@ == s@,
            c@.len() >= 7,
            1 <= i <= 7,
            forall|j: int| 1 <= j < i ==> (c@[j] as u32) < 0x80,
        decreases 7 - i,
    {
        if c[i] as u32 >= 0x80 {
            return None;
        }
        i = i + 1;
    }
    match (hex_byte_of(c[1], c[2]), hex_byte_of(c[3], c[4]), hex_byte_of(c[5], c[6])) {
        (Some(r), Some(g), Some(b)) => Some((r, g, b)),
        _ => None,
    }
}

fn color_field_of(rc: &[char], m: &Vec<Option<usize>>, b: usize) -> (f: Option<u8>)
    requires
        b + 2 < m@.len(),
        m@[b as int] is Some,
        m@[b as int]->0 == char_at_byte(rc@, b as int),
    ensures
        f == color_field(rc@, b as int),
{
    let i = match m[b] {
        Some(i) => i,
        None => 0,
    };
    if i < rc.len() && rc.len() - i > 1 && utf8_width_of(rc[i]) == 1 {
        hex_byte_of(rc[i], rc[i + 1])
    } else {
        None
    }
}

/// Whether reading a `#rrggbb` color out of `s` cuts no character apart
/// (see `color_fields_cut`).
pub fn color_fields_cut_of(s: &str) -> (ok: bool)
    ensures
        ok == color_fields_cut(s@),
{
    let rc = chars_of(s);
    let m = char_starts(rc.as_slice());
    if m.len() <= 3 {
        return false;
    }
    if m[1].is_none() || m[3].is_none() {
        return false;
    }
    let f1 = color_field_of(rc.as_slice(), &m, 1);
    if f1.is_none() {
        return true;
    }
    if m.len() <= 5 {
        return false;
    }
    if m[5].is_none() {
        return false;
    }
    let f2 = color_field_of(rc.as_slice(), &m, 3);
    if f2.is_none() {
        return true;
    }
    if m.len() <= 7 {
        return false;
    }
    m[7].is_some()
}

/// The theme color of an instance (see `theme_color_of`).
pub fn theme_color(theme: Option<&str>) -> (c: Rgba)
    requires
        theme matches Some(t) ==> color_fields_cut(t@),
    ensures
        c == theme_color_of(
            match theme {
                Some(t) => Some(t@),
                None => None,
            },
        ),
{
    let s = match theme {
        Some(t) => t,
        None => "#000000",
    };
    proof {
        reveal_strlit("#000000");
    }
    match parse_rgb_of(s) {
        Some((r, g, b)) => Rgba { r, g, b, a: 255 },
        None => Rgba { r: 0, g: 0, b: 0, a: 0 },
    }
}

/// The image an instance is shown with: its favicon, else its icon, through
/// the media proxy; the placeholder when it has neither.
pub open spec fn instance_icon_url(
    favicon_url: Option<Seq<char>>,
    icon_url: Option<Seq<char>>,
    media_proxy: Seq<char>,
) -> Seq<char> {
    let source = match favicon_url {
        Some(u) => Some(u),
        None => icon_url,
    };
    match source {
        Some(u) => emoji_proxy_url(media_proxy, u),
        None => dummy_png(),
    }
}

/// A Fediverse instance as shown: its host, name, theme color and icon.
pub struct FediverseInstance<M> {
    host: String,
    display_name: String,
    theme_color: Rgba,
    icon: M,
}

impl<M> FediverseInstance<M> {
    /// The host name of the instance.
    pub closed spec fn spec_host(&self) -> Seq<char> {
        self.host@
    }

    /// The name the instance calls itself.
    pub closed spec fn spec_display_name(&self) -> Seq<char> {
        self.display_name@
    }

    /// The color the instance is drawn with.
    pub closed spec fn spec_theme_color(&self) -> Rgba {
        self.theme_color
    }

    /// The icon of the instance.
    pub closed spec fn spec_icon(&self) -> M {
        self.icon
    }

    /// The instance that `value` describes, as reached through
    /// `media_proxy`; `make_icon` turns the address of its icon into the
    /// image. Its host is empty until set.
    pub fn new<F: FnOnce(String) -> M>(value: &RawInstance, media_proxy: &str, make_icon: F) -> (res: Self)
        requires
            value.theme_color matches Some(t) ==> color_fields_cut(t@),
            forall|u: String| make_icon.requires((u,)),
        ensures
            res.spec_host() == Seq::<char>::empty(),
            res.spec_display_name() == match value.name {
                Some(n) => n@,
                None => Seq::<char>::empty(),
            },
            res.spec_theme_color() == theme_color_of(opt_string(value.theme_color)),
            exists|u: String|
                u@ == instance_icon_url(
                    opt_string(value.favicon_url),
                    opt_string(value.icon_url),
                    media_proxy@,
                ) && make_icon.ensures((u,), res.spec_icon()),
    {
        let theme = match &value.theme_color {
            Some(t) => Some(t.as_str()),
            None => None,
        };
        let theme_color = theme_color(theme);
        let source: Option<&str> = match &value.favicon_url {
            Some(s) => Some(s.as_str()),
            None => match &value.icon_url {
                Some(s) => Some(s.as_str()),
                None => None,
            },
        };
        let icon_url = match source {
            Some(u) => emoji_proxy_url_of(media_proxy, u),
            None => dummy_png_url(),
        };
        let ghost iu = icon_url;
        let icon = make_icon(icon_url);
        let display_name = match &value.name {
            Some(n) => n.clone(),
            None => String::new(),
        };
        FediverseInstance { host: String::new(), display_name, theme_color, icon }
    }

    /// The host name of the instance.
    pub fn host(&self) -> (h: &str)
        ensures
            h@ == self.spec_host(),
    {
        self.host.as_str()
    }

    /// Sets the host name of the instance.
    pub fn set_host(&mut self, host: String)
        ensures
            final(self).spec_host() == host@,
            final(self).spec_display_name() == old(self).spec_display_name(),
            final(self).spec_theme_color() == old(self).spec_theme_color(),
            final(self).spec_icon() == old(self).spec_icon(),
    {
        self.host = host;
    }

    /// The name the instance calls itself.
    pub fn display_name(&self) -> (n: &str)
        ensures
            n@ == self.spec_display_name(),
    {
        self.display_name.as_str()
    }

    /// The icon of the instance.
    pub fn icon(&self) -> (i: &M)
        ensures
            *i == self.spec_icon(),
    {
        &self.icon
    }

    /// The color the instance is drawn with.
    pub fn theme_color(&self) -> (c: Rgba)
        ensures
            c == self.spec_theme_color(),
    {
        self.theme_color
    }
}

proof fn lemma_ascii_byte_offset(s: Seq<char>, i: int)
    requires
        0 <= i <= s.len(),
        forall|j: int| 0 <= j < s.len() ==> (s[j] as u32) < 0x80,
    ensures
        byte_offset(s, i) == i,
    decreases i,
{
    if i > 0 {
        lemma_ascii_byte_offset(s, i - 1);
    }
}

proof fn lemma_hex_digit_value(d: int)
    requires
        0 <= d < 16,
    ensures
        hex_value(hex_digit_lower(d)) == Some(d),
        hex_digit_lower(d) != '+',
        (hex_digit_lower(d) as u32) < 0x80,
{
}

/// Law: a color written as `#rrggbb` with lowercase hex digits reads back
/// as that color, and can be read without cutting a character apart.
pub proof fn law_hex_color_reads_back(r: u8, g: u8, b: u8)
    ensures
        color_fields_cut(seq!['#'] + hex_lower(seq![r, g, b])),
        theme_color_of(Some(seq!['#'] + hex_lower(seq![r, g, b]))) == opaque(r, g, b),
{
    let bytes = seq![r, g, b];
    let s = seq!['#'] + hex_lower(bytes);
    assert(hex_lower(bytes) =~= seq![
        hex_digit_lower(r as int / 16),
        hex_digit_lower(r as int % 16),
        hex_digit_lower(g as int / 16),
        hex_digit_lower(g as int % 16),
        hex_digit_lower(b as int / 16),
        hex_digit_lower(b as int % 16),
    ]) by {
        reveal_with_fuel(hex_lower, 4);
        assert(bytes.drop_first() =~= seq![g, b]);
        assert(bytes.drop_first().drop_first() =~= seq![b]);
        assert(bytes.drop_first().drop_first().drop_first() =~= Seq::<u8>::empty());
    }
    lemma_hex_digit_value(r as int / 16);
    lemma_hex_digit_value(r as int % 16);
    lemma_hex_digit_value(g as int / 16);
    lemma_hex_digit_value(g as int % 16);
    lemma_hex_digit_value(b as int / 16);
    lemma_hex_digit_value(b as int % 16);
    assert(16 * (r as int / 16) + r as int % 16 == r as int);
    assert(16 * (g as int / 16) + g as int % 16 == g as int);
    assert(16 * (b as int / 16) + b as int % 16 == b as int);
    assert(s.len() == 7);
    assert forall|j: int| 0 <= j < s.len() implies (s[j] as u32) < 0x80 by {}
    assert(parse_rgb(s) == Some((r, g, b)));
    assert forall|k: int| 0 <= k <= 7 implies #[trigger] is_boundary(s, k) && char_at_byte(s, k)
        == k by {
        lemma_ascii_byte_offset(s, k);
        let c = char_at_byte(s, k);
        lemma_ascii_byte_offset(s, c);
    }
    assert(is_boundary(s, 1) && is_boundary(s, 3) && is_boundary(s, 5) && is_boundary(s, 7));
}

/// Uppercase hexadecimal encoding: two digits per byte, high nibble first.
pub open spec fn hex_upper(data: Seq<u8>) -> Seq<char>
    decreases data.len(),
{
    if data.len() == 0 {
        seq![]
    } else {
        seq![hex_digit_upper(data[0] as int / 16), hex_digit_upper(data[0] as int % 16)] + hex_upper(
            data.drop_first(),
        )
    }
}

proof fn lemma_hex_digit_upper_value(d: int)
    requires
        0 <= d < 16,
    ensures
        hex_value(hex_digit_upper(d)) == Some(d),
        hex_digit_upper(d) != '+',
        (hex_digit_upper(d) as u32) < 0x80,
{
}

/// Law: a color written as `#RRGGBB` with uppercase hex digits reads back
/// as that color, and can be read without cutting a character apart.
pub proof fn law_hex_color_reads_back_upper(r: u8, g: u8, b: u8)
    ensures
        color_fields_cut(seq!['#'] + hex_upper(seq![r, g, b])),
        theme_color_of(Some(seq!['#'] + hex_upper(seq![r, g, b]))) == opaque(r, g, b),
{
    let bytes = seq![r, g, b];
    let s = seq!['#'] + hex_upper(bytes);
    assert(hex_upper(bytes) =~= seq![
        hex_digit_upper(r as int / 16),
        hex_digit_upper(r as int % 16),
        hex_digit_upper(g as int / 16),
        hex_digit_upper(g as int % 16),
        hex_digit_upper(b as int / 16),
        hex_digit_upper(b as int % 16),
    ]) by {
        reveal_with_fuel(hex_upper, 4);
        assert(bytes.drop_first() =~= seq![g, b]);
        assert(bytes.drop_first().drop_first() =~= seq![b]);
        assert(bytes.drop_first().drop_first().drop_first() =~= Seq::<u8>::empty());
    }
    lemma_hex_digit_upper_value(r as int / 16);
    lemma_hex_digit_upper_value(r as int % 16);
    lemma_hex_digit_upper_value(g as int / 16);
    lemma_hex_digit_upper_value(g as int % 16);
    lemma_hex_digit_upper_value(b as int / 16);
    lemma_hex_digit_upper_value(b as int % 16);
    assert(16 * (r as int / 16) + r as int % 16 == r as int);
    assert(16 * (g as int / 16) + g as int % 16 == g as int);
    assert(16 * (b as int / 16) + b as int % 16 == b as int);
    assert(s.len() == 7);
    assert forall|j: int| 0 <= j < s.len() implies (s[j] as u32) < 0x80 by {}
    assert(parse_rgb(s) == Some((r, g, b)));
    assert forall|k: int| 0 <= k <= 7 implies #[trigger] is_boundary(s, k) && char_at_byte(s, k)
        == k by {
        lemma_ascii_byte_offset(s, k);
        let c = char_at_byte(s, k);
        lemma_ascii_byte_offset(s, c);
    }
    assert(is_boundary(s, 1) && is_boundary(s, 3) && is_boundary(s, 5) && is_boundary(s, 7));
}

} // verus!
