use vstd::prelude::*;

use crate::text::{hex_byte_spec, hex_digit_spec, push_char, push_hex_byte};

verus! {

/// An 8-bit sRGB colour.
#[derive(Debug, Clone, Copy, PartialEq, Eq, Structural)]
pub struct Rgb8 {
    pub r: u8,
    pub g: u8,
    pub b: u8,
}

/// `#RRGGBB` with upper-case hexadecimal digits.
pub open spec fn rgb_hex_spec(c: Rgb8) -> Seq<char> {
    seq!['#'] + hex_byte_spec(c.r) + hex_byte_spec(c.g) + hex_byte_spec(c.b)
}

impl Rgb8 {
    /// The colour as `#RRGGBB`, upper-case.
    pub fn hex(self) -> (s: String)
        ensures
            s@ == rgb_hex_spec(self),
    {
        let mut s = String::new();
        push_char(&mut s, '#');
        push_hex_byte(&mut s, self.r);
        push_hex_byte(&mut s, self.g);
        push_hex_byte(&mut s, self.b);
        s
    }
}

/// A channel composited over white: `(c * alpha + 255 * (255 - alpha)) / 255`, rounded to
/// the nearest integer. The quotient's fraction is a multiple of 1/255, so it is never one half.
pub open spec fn blend_channel_spec(channel: u8, alpha: u8) -> u8 {
    ((2 * (channel * alpha + 255 * (255 - alpha)) + 255) / 510) as u8
}

/// What an RGBA pixel becomes over a white background: nothing when fully transparent,
/// else each colour channel composited over white.
pub open spec fn blend_over_white_spec(pixel: [u8; 4]) -> Option<Rgb8> {
    if pixel[3] == 0 {
        None
    } else {
        Some(
            Rgb8 {
                r: blend_channel_spec(pixel[0], pixel[3]),
                g: blend_channel_spec(pixel[1], pixel[3]),
                b: blend_channel_spec(pixel[2], pixel[3]),
            },
        )
    }
}

proof fn lemma_blend_bounds(channel: u8, alpha: u8)
    ensures
        channel * 255 <= channel * alpha + 255 * (255 - alpha) <= 65025,
{
    assert(channel * alpha <= 255 * alpha) by (nonlinear_arith)
        requires
            channel <= 255,
            alpha >= 0,
    ;
    assert(channel * alpha + channel * (255 - alpha) == channel * 255) by (nonlinear_arith);
    assert(channel * (255 - alpha) <= 255 * (255 - alpha)) by (nonlinear_arith)
        requires
            channel <= 255,
            alpha <= 255,
    ;
}

fn blend_channel(channel: u8, alpha: u8) -> (blended: u8)
    ensures
        blended == blend_channel_spec(channel, alpha),
{
    proof {
        lemma_blend_bounds(channel, alpha);
    }
    let covered: u32 = channel as u32 * alpha as u32;
    let numerator: u32 = covered + 255u32 * (255u32 - alpha as u32);
    ((2u32 * numerator + 255u32) / 510u32) as u8
}

/// Composites an RGBA pixel over white; a fully transparent pixel gives `None`.
pub fn blend_over_white(pixel: [u8; 4]) -> (blended: Option<Rgb8>)
    ensures
        blended == blend_over_white_spec(pixel),
{
    let alpha = pixel[3];
    if alpha == 0 {
        return None;
    }
    Some(
        Rgb8 {
            r: blend_channel(pixel[0], alpha),
            g: blend_channel(pixel[1], alpha),
            b: blend_channel(pixel[2], alpha),
        },
    )
}

/// Compositing over white never darkens a channel, and leaves an opaque channel as it is.
pub proof fn lemma_blend_channel_lightens(channel: u8, alpha: u8)
    ensures
        channel <= blend_channel_spec(channel, alpha) <= 255,
        alpha == 255 ==> blend_channel_spec(channel, alpha) == channel,
        alpha == 0 ==> blend_channel_spec(channel, alpha) == 255,
{
    lemma_blend_bounds(channel, alpha);
}

/// Different colours have different hex codes, and every code is `#` and six digits.
pub proof fn lemma_hex_identifies_color(a: Rgb8, b: Rgb8)
    ensures
        rgb_hex_spec(a).len() == 7,
        rgb_hex_spec(a)[0] == '#',
        rgb_hex_spec(a) == rgb_hex_spec(b) ==> a == b,
{
    if rgb_hex_spec(a) == rgb_hex_spec(b) {
        let (ha, hb) = (rgb_hex_spec(a), rgb_hex_spec(b));
        assert(hex_byte_spec(a.r) =~= ha.subrange(1, 3));
        assert(hex_byte_spec(b.r) =~= hb.subrange(1, 3));
        assert(hex_byte_spec(a.g) =~= ha.subrange(3, 5));
        assert(hex_byte_spec(b.g) =~= hb.subrange(3, 5));
        assert(hex_byte_spec(a.b) =~= ha.subrange(5, 7));
        assert(hex_byte_spec(b.b) =~= hb.subrange(5, 7));
        lemma_hex_byte_injective(a.r, b.r);
        lemma_hex_byte_injective(a.g, b.g);
        lemma_hex_byte_injective(a.b, b.b);
    }
}

/// An upper-case hexadecimal digit: `0`-`9` or `A`-`F`.
pub open spec fn is_upper_hex_digit(c: char) -> bool {
    (48 <= c as int && c as int <= 57) || (65 <= c as int && c as int <= 70)
}

/// The value of an upper-case hexadecimal digit.
pub open spec fn hex_value_spec(c: char) -> int {
    if c as int <= 57 {
        c as int - 48
    } else {
        c as int - 55
    }
}

/// The byte that two hexadecimal digits spell, most significant first.
pub open spec fn hex_pair_value(digits: Seq<char>) -> int {
    hex_value_spec(digits[0]) * 16 + hex_value_spec(digits[1])
}

/// A hex code is `#` and six upper-case hexadecimal digits, which read back, two by two, as
/// the red, green and blue channels.
pub proof fn lemma_hex_reads_back(c: Rgb8)
    ensures
        rgb_hex_spec(c).len() == 7,
        rgb_hex_spec(c)[0] == '#',
        forall|i: int| 1 <= i < 7 ==> is_upper_hex_digit(#[trigger] rgb_hex_spec(c)[i]),
        hex_pair_value(rgb_hex_spec(c).subrange(1, 3)) == c.r,
        hex_pair_value(rgb_hex_spec(c).subrange(3, 5)) == c.g,
        hex_pair_value(rgb_hex_spec(c).subrange(5, 7)) == c.b,
{
    let h = rgb_hex_spec(c);
    lemma_hex_byte_reads_back(c.r);
    lemma_hex_byte_reads_back(c.g);
    lemma_hex_byte_reads_back(c.b);
    assert(h.subrange(1, 3) =~= hex_byte_spec(c.r));
    assert(h.subrange(3, 5) =~= hex_byte_spec(c.g));
    assert(h.subrange(5, 7) =~= hex_byte_spec(c.b));
    assert forall|i: int| 1 <= i < 7 implies is_upper_hex_digit(#[trigger] h[i]) by {
        if i < 3 {
            assert(h[i] == hex_byte_spec(c.r)[i - 1]);
        } else if i < 5 {
            assert(h[i] == hex_byte_spec(c.g)[i - 3]);
        } else {
            assert(h[i] == hex_byte_spec(c.b)[i - 5]);
        }
    }
}

proof fn lemma_hex_digit_reads_back(d: int)
    requires
        0 <= d < 16,
    ensures
        is_upper_hex_digit(hex_digit_spec(d)),
        hex_value_spec(hex_digit_spec(d)) == d,
{
    assert(hex_digit_spec(d) as int == if d < 10 { 48 + d } else { 55 + d });
}

proof fn lemma_hex_byte_reads_back(b: u8)
    ensures
        is_upper_hex_digit(hex_byte_spec(b)[0]),
        is_upper_hex_digit(hex_byte_spec(b)[1]),
        hex_pair_value(hex_byte_spec(b)) == b,
{
    lemma_hex_digit_reads_back(b as int / 16);
    lemma_hex_digit_reads_back(b as int % 16);
}

proof fn lemma_hex_digit_injective(x: int, y: int)
    requires
        0 <= x < 16,
        0 <= y < 16,
        hex_digit_spec(x) == hex_digit_spec(y),
    ensures
        x == y,
{
    assert(hex_digit_spec(x) as int == if x < 10 { 48 + x } else { 55 + x });
    assert(hex_digit_spec(y) as int == if y < 10 { 48 + y } else { 55 + y });
}

proof fn lemma_hex_byte_injective(x: u8, y: u8)
    requires
        hex_byte_spec(x) == hex_byte_spec(y),
    ensures
        x == y,
{
    assert(hex_byte_spec(x)[0] == hex_byte_spec(y)[0]);
    assert(hex_byte_spec(x)[1] == hex_byte_spec(y)[1]);
    lemma_hex_digit_injective(x as int / 16, y as int / 16);
    lemma_hex_digit_injective(x as int % 16, y as int % 16);
}

} // verus!
