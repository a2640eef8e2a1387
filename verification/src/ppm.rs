//! A plain pixel-map writer: renders an RGB image as the binary
//! pixel-map format, an ASCII header followed by one byte triple per
//! pixel. A simple, stable adapter around the codec proper.

use crate::color::Rgb8;
use crate::image::Image;
use vstd::prelude::*;

verus! {

/// The decimal digits of a nonnegative number, as ASCII bytes.
pub open spec fn decimal(n: int) -> Seq<u8>
    decreases n,
{
    if n < 10 {
        seq![(48 + n) as u8]
    } else {
        decimal(n / 10) + seq![(48 + n % 10) as u8]
    }
}

/// The header of a pixel-map file: the magic bytes, the decimal
/// dimensions, and the maximum channel value of 255.
pub open spec fn ppm_header(w: int, h: int) -> Seq<u8> {
    seq![80u8, 54u8, 10u8] + decimal(w) + seq![32u8] + decimal(h) + seq![10u8] + decimal(255)
        + seq![10u8]
}

/// The pixel bytes of a pixel-map file: each pixel's three channels in
/// row-major pixel order.
pub open spec fn ppm_pixels(data: Seq<Rgb8>) -> Seq<u8> {
    Seq::new(
        3 * data.len(),
        |i: int|
            {
                let px = data[i / 3];
                if i % 3 == 0 {
                    px.r
                } else if i % 3 == 1 {
                    px.g
                } else {
                    px.b
                }
            },
    )
}

/// A full pixel-map file for an image.
pub open spec fn ppm_bytes(img: Image<Rgb8>) -> Seq<u8> {
    ppm_header(img.width as int, img.height as int) + ppm_pixels(img.data@)
}

/// The pixel-map format marker.
pub struct Ppm;

impl Ppm {
    /// A pixel-map adapter.
    pub fn new() -> (r: Self)
        ensures
            r == (Ppm {}),
    {
        Ppm
    }
}

/// Appends the decimal digits of a number.
fn push_decimal(out: &mut Vec<u8>, n: usize) -> (r: ())
    ensures
        final(out)@ == old(out)@ + decimal(n as int),
    decreases n,
{
    if n < 10 {
        out.push(48 + n as u8);
        proof {
            assert(out@ =~= old(out)@ + decimal(n as int));
        }
    } else {
        push_decimal(out, n / 10);
        out.push(48 + (n % 10) as u8);
        proof {
            assert(out@ =~= old(out)@ + decimal(n as int));
        }
    }
}

/// Renders an image as a binary pixel-map file: the ASCII header, then
/// one byte triple per pixel in row-major order.
pub fn encode(image: &Image<Rgb8>) -> (r: Vec<u8>)
    ensures
        r@ == ppm_bytes(*image),
{
    let mut out: Vec<u8> = Vec::new();
    out.push(80);
    out.push(54);
    out.push(10);
    push_decimal(&mut out, image.width);
    out.push(32);
    push_decimal(&mut out, image.height);
    out.push(10);
    push_decimal(&mut out, 255);
    out.push(10);
    proof {
        assert(out@ =~= ppm_header(image.width as int, image.height as int));
    }
    let ghost header = out@;
    let m: usize = image.data.len();
    let mut i: usize = 0;
    while i < m
        invariant
            m == image.data@.len(),
            i <= m,
            out@.len() == header.len() + 3 * i,
            out@.subrange(0, header.len() as int) == header,
            forall|j: int|
                0 <= j < 3 * i ==> #[trigger] out@[header.len() + j] == ppm_pixels(image.data@)[j],
        decreases m - i,
    {
        let px: Rgb8 = image.data[i];
        out.push(px.r);
        out.push(px.g);
        out.push(px.b);
        proof {
            assert(out@.subrange(0, header.len() as int) =~= header);
            assert(forall|j: int|
                0 <= j < 3 * (i + 1) ==> #[trigger] out@[header.len() + j] == ppm_pixels(
                    image.data@,
                )[j]);
        }
        i = i + 1;
    }
    proof {
        let full = header + ppm_pixels(image.data@);
        assert forall|j: int| 0 <= j < out@.len() implies out@[j] == full[j] by {
            if j < header.len() {
                assert(out@.subrange(0, header.len() as int)[j] == out@[j]);
            } else {
                assert(out@[header.len() + (j - header.len())] == ppm_pixels(image.data@)[j
                    - header.len()]);
            }
        }
        assert(out@ =~= full);
        assert(out@ =~= ppm_bytes(*image));
    }
    out
}

} // verus!
