use vstd::prelude::*;

verus! {

/// A simple RGB color with transparency.
#[derive(Clone, Copy, PartialEq, Eq, Structural, Debug)]
pub struct Color {
    pub r: u8,
    pub g: u8,
    pub b: u8,
    pub alpha: u8,
}

/// One channel of the compositing formula: `other` is mixed over `dst` with
/// mix factor `a`, using truncating integer division by 255.
pub open spec fn blend_channel(dst: u8, src: u8, a: u8) -> int {
    (dst * (255 - a) + src * a) / 255
}

/// The color produced by compositing `src` over `dst`; the destination's
/// alpha is preserved.
pub open spec fn blend_spec(dst: Color, src: Color) -> Color {
    Color {
        r: blend_channel(dst.r, src.r, src.alpha) as u8,
        g: blend_channel(dst.g, src.g, src.alpha) as u8,
        b: blend_channel(dst.b, src.b, src.alpha) as u8,
        alpha: dst.alpha,
    }
}

/// An opaque source replaces the destination channel outright.
pub proof fn lemma_blend_channel_opaque(dst: u8, src: u8)
    ensures
        blend_channel(dst, src, 255) == src,
{
    vstd::arithmetic::div_mod::lemma_div_multiples_vanish(src as int, 255);
    assert(dst * (255 - 255) == 0) by (nonlinear_arith);
    assert((255 * src) == (src * 255)) by (nonlinear_arith);
}

/// A fully transparent source leaves the destination channel unchanged.
pub proof fn lemma_blend_channel_transparent(dst: u8, src: u8)
    ensures
        blend_channel(dst, src, 0) == dst,
{
    vstd::arithmetic::div_mod::lemma_div_multiples_vanish(dst as int, 255);
    assert(src * 0 == 0) by (nonlinear_arith);
    assert((255 * dst) == (dst * 255)) by (nonlinear_arith);
}

/// Each blended channel stays within the byte range.
pub proof fn lemma_blend_channel_bounds(dst: u8, src: u8, a: u8)
    ensures
        0 <= blend_channel(dst, src, a) <= 255,
{
    assert(dst * (255 - a) + src * a <= 255 * 255) by (nonlinear_arith)
        requires
            dst <= 255,
            src <= 255,
            a <= 255,
    ;
    assert(0 <= dst * (255 - a) + src * a) by (nonlinear_arith)
        requires
            a <= 255,
    ;
}

impl Color {
    /// Creates a new color from R, G and B components
    pub fn rgb(r: u8, g: u8, b: u8) -> (c: Color)
        ensures
            c == (Color { r, g, b, alpha: 255 }),
    {
        Color { r, g, b, alpha: 255 }
    }

    /// Creates a new color from R, G, B and transparency components
    pub fn rgba(r: u8, g: u8, b: u8, alpha: u8) -> (c: Color)
        ensures
            c == (Color { r, g, b, alpha }),
    {
        Color { r, g, b, alpha }
    }

    /// Creates a new color based on this color, including only the selected
    /// channels
    pub fn mask(&self, r: bool, g: bool, b: bool) -> (c: Color)
        ensures
            c == (Color {
                r: if r { self.r } else { 0 },
                g: if g { self.g } else { 0 },
                b: if b { self.b } else { 0 },
                alpha: self.alpha,
            }),
    {
        Color {
            r: if r { self.r } else { 0 },
            g: if g { self.g } else { 0 },
            b: if b { self.b } else { 0 },
            alpha: self.alpha,
        }
    }

    /// Creates a new color from alpha blending this color and the other color,
    /// using the other color's alpha as the mix factor. The output color's
    /// alpha is the same as this color's alpha.
    pub fn blend(&self, other: Color) -> (c: Color)
        ensures
            c == blend_spec(*self, other),
    {
        let base_blend: u16 = (255 - other.alpha) as u16;
        proof {
            lemma_blend_channel_bounds(self.r, other.r, other.alpha);
            lemma_blend_channel_bounds(self.g, other.g, other.alpha);
            lemma_blend_channel_bounds(self.b, other.b, other.alpha);
        }
        let r = ((self.r as u16 * base_blend) + (other.r as u16 * other.alpha as u16)) / 255;
        let g = ((self.g as u16 * base_blend) + (other.g as u16 * other.alpha as u16)) / 255;
        let b = ((self.b as u16 * base_blend) + (other.b as u16 * other.alpha as u16)) / 255;
        Color { r: r as u8, g: g as u8, b: b as u8, alpha: self.alpha }
    }

    /// Returns a Color representing pure white
    pub fn white() -> (c: Color)
        ensures
            c == (Color { r: 255, g: 255, b: 255, alpha: 255 }),
    {
        Color::rgb(255, 255, 255)
    }

    /// Returns a Color representing pure black
    pub fn black() -> (c: Color)
        ensures
            c == (Color { r: 0, g: 0, b: 0, alpha: 255 }),
    {
        Color::rgb(0, 0, 0)
    }
}

} // verus!
