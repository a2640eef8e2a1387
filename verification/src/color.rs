//! Three-channel color: 8-bit RGB pixels and the Lab-like signed
//! three-channel space the codec transforms. The conversions are pure
//! fixed-point maps with coefficients scaled by 10000, truncating
//! toward zero.

use crate::image::Image;
use crate::unit::tdiv;
use vstd::prelude::*;

verus! {

use vstd::arithmetic::div_mod::lemma_div_is_ordered;
use vstd::arithmetic::div_mod::lemma_div_pos_is_pos;

/// An 8-bit RGB pixel.
#[derive(Debug, Clone, Copy, Default, PartialEq, Eq, Structural)]
pub struct Rgb8 {
    pub r: u8,
    pub g: u8,
    pub b: u8,
}

/// A Lab-like pixel: one signed luma-like channel and two signed
/// chroma-like channels.
#[derive(Debug, Clone, Copy, Default, PartialEq, Eq, Structural)]
pub struct Lab8 {
    pub l: i8,
    pub a: i8,
    pub b: i8,
}

/// A channel value clamped to the 0..=255 range of one byte.
pub open spec fn clamp_u8(v: int) -> int {
    if v < 0 {
        0
    } else if v > 255 {
        255
    } else {
        v
    }
}

/// The Lab-like pixel a given RGB pixel converts to.
pub open spec fn lab_of_rgb(c: Rgb8) -> Lab8 {
    Lab8 {
        l: (tdiv(2126 * c.r + 7152 * c.g + 722 * c.b, 10000) - 128) as i8,
        a: tdiv(5000 * c.b - 1146 * c.r - 3854 * c.g, 10000) as i8,
        b: tdiv(5000 * c.r - 4542 * c.g - 458 * c.b, 10000) as i8,
    }
}

/// The RGB pixel a given Lab-like pixel converts to.
pub open spec fn rgb_of_lab(c: Lab8) -> Rgb8 {
    Rgb8 {
        r: clamp_u8(tdiv((c.l + 128) * 10000 + 15748 * c.b, 10000)) as u8,
        g: clamp_u8(tdiv((c.l + 128) * 10000 - 1873 * c.a - 4681 * c.b, 10000)) as u8,
        b: clamp_u8(tdiv((c.l + 128) * 10000 + 18556 * c.a, 10000)) as u8,
    }
}

/// Truncating division of a bounded numerator by the 10000 coefficient
/// scale.
fn div10k(n: i32) -> (r: i32)
    requires
        -5000000 <= n <= 5000000,
    ensures
        r as int == tdiv(n as int, 10000),
        -500 <= r <= 500,
{
    if n >= 0 {
        proof {
            lemma_div_pos_is_pos(n as int, 10000);
            lemma_div_is_ordered(n as int, 5000000, 10000);
        }
        n / 10000
    } else {
        proof {
            lemma_div_pos_is_pos(-n as int, 10000);
            lemma_div_is_ordered(-n as int, 5000000, 10000);
        }
        -((-n) / 10000)
    }
}

impl vstd::std_specs::convert::FromSpecImpl<Rgb8> for Lab8 {
    open spec fn obeys_from_spec() -> bool {
        true
    }

    open spec fn from_spec(other: Rgb8) -> Lab8 {
        lab_of_rgb(other)
    }
}

impl From<Rgb8> for Lab8 {
    fn from(other: Rgb8) -> (ret: Lab8) {
        let r: i32 = other.r as i32;
        let g: i32 = other.g as i32;
        let b: i32 = other.b as i32;
        let nl: i32 = 2126 * r + 7152 * g + 722 * b;
        let na: i32 = 5000 * b - 1146 * r - 3854 * g;
        let nb: i32 = 5000 * r - 4542 * g - 458 * b;
        let vl: i32 = div10k(nl);
        let va: i32 = div10k(na);
        let vb: i32 = div10k(nb);
        proof {
            lemma_div_is_ordered(nl as int, 2550000, 10000);
            lemma_div_is_ordered(-na as int, 1275000, 10000);
            lemma_div_is_ordered(na as int, 1275000, 10000);
            lemma_div_is_ordered(-nb as int, 1275000, 10000);
            lemma_div_is_ordered(nb as int, 1275000, 10000);
            assert(0 <= vl <= 255);
            assert(-127 <= va <= 127);
            assert(-127 <= vb <= 127);
        }
        Lab8 { l: (vl - 128) as i8, a: va as i8, b: vb as i8 }
    }
}

impl vstd::std_specs::convert::FromSpecImpl<Lab8> for Rgb8 {
    open spec fn obeys_from_spec() -> bool {
        true
    }

    open spec fn from_spec(other: Lab8) -> Rgb8 {
        rgb_of_lab(other)
    }
}

/// Clamps a converted channel to one byte.
fn clamp_channel(v: i32) -> (r: u8)
    requires
        -500 <= v <= 500,
    ensures
        r as int == clamp_u8(v as int),
{
    if v < 0 {
        0
    } else if v > 255 {
        255
    } else {
        v as u8
    }
}

impl From<Lab8> for Rgb8 {
    fn from(other: Lab8) -> (ret: Rgb8) {
        let base: i32 = (other.l as i32 + 128) * 10000;
        let a: i32 = other.a as i32;
        let b: i32 = other.b as i32;
        let nr: i32 = base + 15748 * b;
        let ng: i32 = base - 1873 * a - 4681 * b;
        let nb: i32 = base + 18556 * a;
        let vr: u8 = clamp_channel(div10k(nr));
        let vg: u8 = clamp_channel(div10k(ng));
        let vb: u8 = clamp_channel(div10k(nb));
        Rgb8 { r: vr, g: vg, b: vb }
    }
}

/// Converts a whole RGB image to the Lab-like space, pixel by pixel,
/// preserving dimensions.
pub fn image_to_lab(img: &Image<Rgb8>) -> (r: Image<Lab8>)
    requires
        img.wf(),
    ensures
        r.width == img.width,
        r.height == img.height,
        r.wf(),
        forall|i: int|
            0 <= i < img.data@.len() ==> #[trigger] r.data@[i] == lab_of_rgb(img.data@[i]),
{
    let m: usize = img.data.len();
    let mut data: Vec<Lab8> = Vec::new();
    let mut i: usize = 0;
    while i < m
        invariant
            m == img.data@.len(),
            i <= m,
            data@.len() == i,
            forall|j: int| 0 <= j < i ==> #[trigger] data@[j] == lab_of_rgb(img.data@[j]),
        decreases m - i,
    {
        data.push(Lab8::from(img.data[i]));
        i = i + 1;
    }
    Image::new(img.width, img.height, data)
}

/// Converts a whole Lab-like image back to RGB, pixel by pixel,
/// preserving dimensions.
pub fn image_to_rgb(img: &Image<Lab8>) -> (r: Image<Rgb8>)
    requires
        img.wf(),
    ensures
        r.width == img.width,
        r.height == img.height,
        r.wf(),
        forall|i: int|
            0 <= i < img.data@.len() ==> #[trigger] r.data@[i] == rgb_of_lab(img.data@[i]),
{
    let m: usize = img.data.len();
    let mut data: Vec<Rgb8> = Vec::new();
    let mut i: usize = 0;
    while i < m
        invariant
            m == img.data@.len(),
            i <= m,
            data@.len() == i,
            forall|j: int| 0 <= j < i ==> #[trigger] data@[j] == rgb_of_lab(img.data@[j]),
        decreases m - i,
    {
        data.push(Rgb8::from(img.data[i]));
        i = i + 1;
    }
    Image::new(img.width, img.height, data)
}

} // verus!
