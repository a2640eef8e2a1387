//! The container codec: serializes a three-channel image as a header,
//! the two active quantization tables, and one transformed, quantized,
//! zigzagged byte triple per 8×8 block, in raster order; and decodes
//! such a byte sequence back into an image. The tables travel with the
//! data, so decoding is self-contained.

use crate::color::Lab8;
use crate::image::block_pixel;
use crate::image::Image;
use crate::tables::chroma_entry;
use crate::tables::from_quality;
use crate::tables::luma_entry;
use crate::unit::dct_of;
use crate::unit::ints_of;
use crate::unit::inv_dct_of;
use crate::unit::inv_zigzag_of;
use crate::unit::lemma_unit_len;
use crate::unit::lemma_zigzag_tables;
use crate::unit::tdiv;
use crate::unit::zigzag_of;
use crate::unit::Unit;
use crate::unit::INV_ZIGZAG;
use vstd::prelude::*;

verus! {

use vstd::arithmetic::div_mod::lemma_mod_multiples_vanish;

/// Why encoding or decoding failed. Failures are fatal: the whole
/// operation is abandoned, nothing is padded or truncated silently.
#[derive(Debug, Clone, Copy, PartialEq, Eq, Structural)]
pub enum Error {
    /// A dimension is not divisible by 8, or does not fit the header.
    InvalidDimensions,
    /// The byte sequence ends before the header or block data does.
    Truncated,
}

/// The two quantization tables an encoder works with: one for the
/// luma-like channel, one shared by both chroma-like channels.
pub struct Settings {
    pub luma_table: Unit<i32>,
    pub chroma_table: Unit<i32>,
}

impl Settings {
    /// Every entry of both tables is a positive divisor fitting one
    /// signed byte, so quantizing never divides by zero and the tables
    /// survive the byte trip through the container header.
    pub open spec fn wf(&self) -> bool {
        &&& forall|i: int| 0 <= i < 64 ==> 1 <= #[trigger] self.luma_table@[i] <= 127
        &&& forall|i: int| 0 <= i < 64 ==> 1 <= #[trigger] self.chroma_table@[i] <= 127
    }

    /// Tables for the default quality of 5.
    pub fn new() -> (r: Self)
        ensures
            forall|i: int| 0 <= i < 64 ==> (#[trigger] r.luma_table@[i]) as int == luma_entry(
                5,
                i,
            ),
            forall|i: int| 0 <= i < 64 ==> (#[trigger] r.chroma_table@[i]) as int == chroma_entry(
                5,
                i,
            ),
            r.wf(),
    {
        Self::quality(5)
    }

    /// Tables scaled for the given quality; out-of-range qualities are
    /// clamped, not rejected.
    pub fn quality(quality: usize) -> (r: Self)
        ensures
            forall|i: int| 0 <= i < 64 ==> (#[trigger] r.luma_table@[i]) as int == luma_entry(
                quality as int,
                i,
            ),
            forall|i: int| 0 <= i < 64 ==> (#[trigger] r.chroma_table@[i]) as int == chroma_entry(
                quality as int,
                i,
            ),
            r.wf(),
    {
        let (luma_table, chroma_table) = from_quality(quality);
        Settings { luma_table, chroma_table }
    }
}

impl Default for Settings {
    /// The default settings use quality 5.
    fn default() -> (r: Self)
        ensures
            forall|i: int| 0 <= i < 64 ==> (#[trigger] r.luma_table@[i]) as int == luma_entry(
                5,
                i,
            ),
            forall|i: int| 0 <= i < 64 ==> (#[trigger] r.chroma_table@[i]) as int == chroma_entry(
                5,
                i,
            ),
            r.wf(),
    {
        Self::new()
    }
}

/// The low byte of a 32-bit value: its two's-complement residue in
/// 0..=255, the effect of a narrowing byte cast.
pub open spec fn low_byte(x: int) -> int {
    x % 256
}

/// An unsigned byte reinterpreted as the signed byte with the same bits.
pub open spec fn i8_of_byte(b: int) -> int {
    if b >= 128 {
        b - 256
    } else {
        b
    }
}

/// A 32-bit value wrapped to the signed-byte range, two's-complement.
pub open spec fn wrap_i8(x: int) -> int {
    ((x + 128) % 256) - 128
}

/// Reinterpreting the low byte as signed is exactly the wrap to the
/// signed-byte range.
pub proof fn lemma_byte_wrap(x: int)
    ensures
        i8_of_byte(low_byte(x)) == wrap_i8(x),
{
    vstd::arithmetic::div_mod::lemma_add_mod_noop(x, 128, 256);
    vstd::arithmetic::div_mod::lemma_mod_division_less_than_divisor(x, 256);
    vstd::arithmetic::div_mod::lemma_mod_division_less_than_divisor(x + 128, 256);
    assert((x % 256 + 128int % 256) % 256 == (x + 128) % 256);
    assert(128int % 256 == 128);
    if x % 256 >= 128 {
        vstd::arithmetic::div_mod::lemma_mod_sub_multiples_vanish(x % 256 + 128, 256);
        assert((x % 256 + 128) % 256 == (x % 256 + 128 - 256) % 256);
        vstd::arithmetic::div_mod::lemma_small_mod((x % 256 + 128 - 256) as nat, 256);
    } else {
        vstd::arithmetic::div_mod::lemma_small_mod((x % 256 + 128) as nat, 256);
    }
}

/// The low byte of a bounded 32-bit value.
fn low_byte_of(x: i32) -> (r: u8)
    requires
        -0x20000000 <= x <= 0x20000000,
    ensures
        r as int == low_byte(x as int),
{
    proof {
        lemma_mod_multiples_vanish(0x200000, x as int, 256);
    }
    let m: i32 = (x + 0x20000000) % 256;
    m as u8
}

/// The signed byte with the same bits as a given unsigned byte.
fn signed_of_byte(b: u8) -> (r: i8)
    ensures
        r as int == i8_of_byte(b as int),
{
    if b < 128 {
        b as i8
    } else {
        (b as i32 - 256) as i8
    }
}

/// A bounded 32-bit value wrapped to a signed byte.
fn wrap_to_i8(x: i32) -> (r: i8)
    requires
        -0x20000000 <= x <= 0x20000000,
    ensures
        r as int == wrap_i8(x as int),
{
    proof {
        lemma_byte_wrap(x as int);
    }
    let b: u8 = low_byte_of(x);
    signed_of_byte(b)
}

/// A signed-byte sample sequence widened to 32-bit samples.
pub open spec fn widen_seq(s: Seq<i8>) -> Seq<i32> {
    Seq::new(s.len(), |i: int| s[i] as i32)
}

/// The 64 container bytes of one channel of one block: the samples
/// transformed, quantized against `table`, wrapped to bytes and put in
/// zigzag order.
pub open spec fn channel_bytes(s: Seq<i8>, table: Seq<i32>) -> Seq<u8> {
    let f = dct_of(ints_of(widen_seq(s)));
    let q = Seq::new(64, |i: int| tdiv(f[i], table[i] as int));
    let z = zigzag_of(q);
    Seq::new(64, |i: int| low_byte(z[i]) as u8)
}

/// The 64 decoded samples of one channel of one block: the container
/// bytes taken out of zigzag order, read as signed bytes, dequantized
/// against `table`, inverse-transformed and wrapped back to samples.
pub open spec fn channel_samples(z: Seq<u8>, table: Seq<i32>) -> Seq<i8> {
    let u = inv_zigzag_of(z);
    let d = Seq::new(64, |i: int| i8_of_byte(u[i] as int) * table[i]);
    let p = inv_dct_of(d);
    Seq::new(64, |i: int| wrap_i8(p[i]) as i8)
}

/// Encodes one channel of one block into its 64 container bytes.
fn channel_coded(samples: &[i8; 64], table: Unit<i32>) -> (r: [u8; 64])
    requires
        forall|i: int| 0 <= i < 64 ==> 1 <= #[trigger] table@[i] <= 127,
    ensures
        r@ == channel_bytes(samples@, table@),
{
    let mut w: [i32; 64] = [0; 64];
    for e in 0..64
        invariant
            w@.len() == 64,
            forall|j: int| 0 <= j < e ==> #[trigger] w@[j] == samples@[j] as i32,
    {
        w[e] = samples[e] as i32;
    }
    let u: Unit<i32> = Unit::new(w);
    let f: Unit<i32> = u.dct();
    let q: Unit<i32> = f.quantize(table);
    let qa: [i32; 64] = q.unwrap();
    let mut bytes: [u8; 64] = [0; 64];
    for e in 0..64
        invariant
            bytes@.len() == 64,
            qa@ == q@,
            forall|j: int| 0 <= j < 64 ==> -0x20000000 <= #[trigger] q@[j] <= 0x20000000,
            forall|j: int| 0 <= j < e ==> (#[trigger] bytes@[j]) as int == low_byte(qa@[j] as int),
    {
        bytes[e] = low_byte_of(qa[e]);
    }
    let z: Unit<u8> = Unit::new(bytes).zigzag();
    let za: [u8; 64] = z.unwrap();
    proof {
        lemma_zigzag_tables();
        let qspec = Seq::new(64, |i: int| tdiv(dct_of(ints_of(widen_seq(samples@)))[i], table@[i] as int));
        assert(widen_seq(samples@) =~= w@);
        assert(forall|i: int| 0 <= i < 64 ==> #[trigger] qa@[i] as int == qspec[i]);
        assert(forall|i: int| 0 <= i < 64 ==> (#[trigger] za@[i]) as int == low_byte(
            zigzag_of(qspec)[i],
        ));
        assert(za@ =~= channel_bytes(samples@, table@));
    }
    za
}

/// Decodes the 64 container bytes of one channel of one block back to
/// its (still lossy) samples.
fn channel_decoded(z: &[u8; 64], table: Unit<i32>) -> (r: [i8; 64])
    requires
        forall|i: int| 0 <= i < 64 ==> -128 <= #[trigger] table@[i] <= 127,
    ensures
        r@ == channel_samples(z@, table@),
{
    let u: Unit<u8> = Unit::new(*z).inv_zigzag();
    let ua: [u8; 64] = u.unwrap();
    let mut n: [i32; 64] = [0; 64];
    for e in 0..64
        invariant
            n@.len() == 64,
            ua@ == inv_zigzag_of(z@),
            forall|j: int| 0 <= j < e ==> #[trigger] n@[j] as int == i8_of_byte(ua@[j] as int),
            forall|j: int| 0 <= j < e ==> -128 <= #[trigger] n@[j] <= 127,
    {
        n[e] = signed_of_byte(ua[e]) as i32;
    }
    let nu: Unit<i32> = Unit::new(n);
    proof {
        assert forall|i: int| 0 <= i < 64 implies i32::MIN <= (#[trigger] nu@[i]) * table@[i]
            <= i32::MAX by {
            assert(-16384 <= nu@[i] * table@[i] <= 16384) by (nonlinear_arith)
                requires
                    -128 <= nu@[i] <= 127,
                    -128 <= table@[i] <= 127,
            ;
        }
    }
    let d: Unit<i32> = nu.inv_quantize(table);
    proof {
        assert forall|i: int| 0 <= i < 64 implies -16777216 <= (#[trigger] d@[i]) <= 16777216 by {
            assert(-16384 <= nu@[i] * table@[i] <= 16384) by (nonlinear_arith)
                requires
                    -128 <= nu@[i] <= 127,
                    -128 <= table@[i] <= 127,
            ;
        }
    }
    let p: Unit<i32> = d.inv_dct();
    let pa: [i32; 64] = p.unwrap();
    let mut out: [i8; 64] = [0; 64];
    for e in 0..64
        invariant
            out@.len() == 64,
            pa@ == p@,
            forall|j: int| 0 <= j < 64 ==> -0x20000000 <= #[trigger] p@[j] <= 0x20000000,
            forall|j: int| 0 <= j < e ==> #[trigger] out@[j] as int == wrap_i8(pa@[j] as int),
    {
        out[e] = wrap_to_i8(pa[e]);
    }
    proof {
        let dspec = Seq::new(64, |i: int| i8_of_byte(inv_zigzag_of(z@)[i] as int) * table@[i]);
        assert forall|i: int| 0 <= i < 64 implies ints_of(d@)[i] == dspec[i] by {
            assert(n@[i] as int == i8_of_byte(ua@[i] as int));
            assert(d@[i] as int == nu@[i] * table@[i]);
        }
        assert(ints_of(d@) =~= dspec);
        assert forall|i: int| 0 <= i < 64 implies out@[i] == channel_samples(z@, table@)[i] by {
            assert(out@[i] as int == wrap_i8(pa@[i] as int));
            assert(pa@[i] as int == inv_dct_of(dspec)[i]);
            assert(0 <= (inv_dct_of(dspec)[i] + 128) % 256 < 256);
        }
        assert(out@ =~= channel_samples(z@, table@));
    }
    out
}

/// The samples of one channel (0 luma, 1 and 2 chroma) of block `b` of
/// an image, in row-major order within the block. Blocks are counted in
/// raster order: `b` = block row · blocks-per-row + block column.
pub open spec fn block_channel(img: Image<Lab8>, b: int, ch: int) -> Seq<i8> {
    Seq::new(
        64,
        |e: int|
            {
                let bw = img.width as int / 8;
                let p = block_pixel(img.width as int, b % bw, b / bw, e);
                let px = img.data@[p];
                if ch == 0 {
                    px.l
                } else if ch == 1 {
                    px.a
                } else {
                    px.b
                }
            },
    )
}

/// The 192 container bytes of block `b`: its luma channel, then its two
/// chroma channels.
pub open spec fn block_bytes(img: Image<Lab8>, lt: Seq<i32>, ct: Seq<i32>, b: int) -> Seq<u8> {
    channel_bytes(block_channel(img, b, 0), lt) + channel_bytes(block_channel(img, b, 1), ct)
        + channel_bytes(block_channel(img, b, 2), ct)
}

/// The container bytes of the first `n` blocks, in raster order.
pub open spec fn blocks_bytes(img: Image<Lab8>, lt: Seq<i32>, ct: Seq<i32>, n: nat) -> Seq<u8>
    decreases n,
{
    if n == 0 {
        Seq::<u8>::empty()
    } else {
        blocks_bytes(img, lt, ct, (n - 1) as nat) + block_bytes(img, lt, ct, n as int - 1)
    }
}

/// A 16-bit value as two big-endian bytes.
pub open spec fn be16(v: int) -> Seq<u8> {
    seq![(v / 256) as u8, (v % 256) as u8]
}

/// A quantization table serialized as one signed byte per entry.
pub open spec fn table_bytes(t: Seq<i32>) -> Seq<u8> {
    Seq::new(64, |i: int| low_byte(t[i] as int) as u8)
}

/// Whether an image's dimensions fit the container: divisible by 8 (no
/// padding is supported) and representable in the 16-bit header.
pub open spec fn encodable(img: Image<Lab8>) -> bool {
    &&& img.width % 8 == 0
    &&& img.height % 8 == 0
    &&& img.width <= 65535
    &&& img.height <= 65535
}

/// The full container byte sequence of an image under the given tables:
/// header, the two tables, then every block in raster order.
pub open spec fn encode_bytes(img: Image<Lab8>, lt: Seq<i32>, ct: Seq<i32>) -> Seq<u8> {
    be16(img.width as int) + be16(img.height as int) + table_bytes(lt) + table_bytes(ct)
        + blocks_bytes(img, lt, ct, ((img.width as int / 8) * (img.height as int / 8)) as nat)
}

/// Appends a 16-bit value as two big-endian bytes.
fn push_be16(out: &mut Vec<u8>, v: u16) -> (r: ())
    ensures
        final(out)@ == old(out)@ + be16(v as int),
{
    out.push((v / 256) as u8);
    out.push((v % 256) as u8);
    proof {
        assert(out@ =~= old(out)@ + be16(v as int));
    }
}

/// Appends 64 bytes.
fn push_64(out: &mut Vec<u8>, b: &[u8; 64]) -> (r: ())
    ensures
        final(out)@ == old(out)@ + b@,
{
    for e in 0..64
        invariant
            out@ == old(out)@ + b@.subrange(0, e as int),
    {
        out.push(b[e]);
        proof {
            assert(b@.subrange(0, e + 1) =~= b@.subrange(0, e as int) + seq![b@[e as int]]);
            assert(out@ =~= old(out)@ + b@.subrange(0, e + 1));
        }
    }
    proof {
        assert(b@.subrange(0, 64) =~= b@);
    }
}

/// Appends a quantization table as one signed byte per entry.
fn push_table(out: &mut Vec<u8>, t: &Unit<i32>) -> (r: ())
    requires
        forall|i: int| 0 <= i < 64 ==> 1 <= #[trigger] t@[i] <= 127,
    ensures
        final(out)@ == old(out)@ + table_bytes(t@),
{
    let ta: [i32; 64] = (*t).unwrap();
    let mut bytes: [u8; 64] = [0; 64];
    for e in 0..64
        invariant
            bytes@.len() == 64,
            ta@ == t@,
            forall|j: int| 0 <= j < 64 ==> 1 <= #[trigger] t@[j] <= 127,
            forall|j: int| 0 <= j < e ==> (#[trigger] bytes@[j]) as int == low_byte(ta@[j] as int),
    {
        proof {
            assert(1 <= t@[e as int] <= 127);
        }
        bytes[e] = low_byte_of(ta[e]);
    }
    proof {
        assert(bytes@ =~= table_bytes(t@));
    }
    push_64(out, &bytes);
}

/// Gathers the three channel sample blocks of the block at block
/// coordinates (bx, by).
fn block_samples(image: &Image<Lab8>, bx: usize, by: usize) -> (r: ([i8; 64], [i8; 64], [i8; 64]))
    requires
        image.wf(),
        8 * bx + 8 <= image.width,
        8 * by + 8 <= image.height,
    ensures
        forall|e: int|
            0 <= e < 64 ==> (#[trigger] r.0@[e]) == image.data@[block_pixel(
                image.width as int,
                bx as int,
                by as int,
                e,
            )].l,
        forall|e: int|
            0 <= e < 64 ==> (#[trigger] r.1@[e]) == image.data@[block_pixel(
                image.width as int,
                bx as int,
                by as int,
                e,
            )].a,
        forall|e: int|
            0 <= e < 64 ==> (#[trigger] r.2@[e]) == image.data@[block_pixel(
                image.width as int,
                bx as int,
                by as int,
                e,
            )].b,
{
    let iw: usize = image.width;
    let total: usize = image.data.len();
    proof {
        assert(8 * by * iw + 8 * bx + 7 * iw + 7 < image.data@.len()) by (nonlinear_arith)
            requires
                8 * bx + 8 <= iw,
                8 * by + 8 <= image.height,
                iw == image.width,
                image.data@.len() == image.width * image.height,
        ;
    }
    let base: usize = 8 * by * iw + 8 * bx;
    let mut l: [i8; 64] = [0; 64];
    let mut a: [i8; 64] = [0; 64];
    let mut b: [i8; 64] = [0; 64];
    for e in 0..64
        invariant
            base == 8 * by * iw + 8 * bx,
            iw == image.width,
            total == image.data@.len(),
            8 * by * iw + 8 * bx + 7 * iw + 7 < image.data@.len(),
            l@.len() == 64,
            a@.len() == 64,
            b@.len() == 64,
            forall|j: int|
                0 <= j < e ==> (#[trigger] l@[j]) == image.data@[block_pixel(
                    iw as int,
                    bx as int,
                    by as int,
                    j,
                )].l,
            forall|j: int|
                0 <= j < e ==> (#[trigger] a@[j]) == image.data@[block_pixel(
                    iw as int,
                    bx as int,
                    by as int,
                    j,
                )].a,
            forall|j: int|
                0 <= j < e ==> (#[trigger] b@[j]) == image.data@[block_pixel(
                    iw as int,
                    bx as int,
                    by as int,
                    j,
                )].b,
    {
        let row: usize = e / 8;
        let col: usize = e % 8;
        proof {
            assert(row * iw <= 7 * iw) by (nonlinear_arith)
                requires
                    row <= 7,
                    iw >= 0,
            ;
        }
        let idx: usize = base + row * iw + col;
        proof {
            assert(idx == block_pixel(iw as int, bx as int, by as int, e as int))
                by (nonlinear_arith)
                requires
                    idx == base + row * iw + col,
                    base == 8 * by * iw + 8 * bx,
                    row == e as int / 8,
                    col == e as int % 8,
                    0 <= e < 64,
            ;
        }
        let px: Lab8 = image.data[idx];
        l[e] = px.l;
        a[e] = px.a;
        b[e] = px.b;
        proof {
            let p = block_pixel(iw as int, bx as int, by as int, e as int);
            assert(px == image.data@[p]);
            assert(l@[e as int] == image.data@[p].l);
            assert(a@[e as int] == image.data@[p].a);
            assert(b@[e as int] == image.data@[p].b);
        }
    }
    (l, a, b)
}

/// Encodes a three-channel image into the self-describing container:
/// the big-endian dimensions, the two quantization tables, then each
/// 8×8 block's transformed, quantized, zigzagged channels in raster
/// order. An image whose width or height is not divisible by 8, or does
/// not fit the 16-bit header, is rejected: padding is not supported.
pub fn encode(settings: &Settings, image: &Image<Lab8>) -> (r: Result<Vec<u8>, Error>)
    requires
        image.wf(),
        settings.wf(),
    ensures
        encodable(*image) ==> (r matches Ok(bytes) && bytes@ == encode_bytes(
            *image,
            settings.luma_table@,
            settings.chroma_table@,
        )),
        !encodable(*image) ==> (r matches Err(e) && e == Error::InvalidDimensions),
{
    if image.width % 8 != 0 || image.height % 8 != 0 || image.width > 65535 || image.height
        > 65535 {
        return Err(Error::InvalidDimensions);
    }
    let ghost lt = settings.luma_table@;
    let ghost ct = settings.chroma_table@;
    let mut out: Vec<u8> = Vec::new();
    push_be16(&mut out, image.width as u16);
    push_be16(&mut out, image.height as u16);
    push_table(&mut out, &settings.luma_table);
    push_table(&mut out, &settings.chroma_table);
    let ghost header = be16(image.width as int) + be16(image.height as int) + table_bytes(lt)
        + table_bytes(ct);
    proof {
        assert(out@ =~= header);
    }
    let bw: usize = image.width / 8;
    let bh: usize = image.height / 8;
    proof {
        assert(bw * bh <= 8191 * 8191) by (nonlinear_arith)
            requires
                bw <= 8191,
                bh <= 8191,
        ;
    }
    let nb: usize = bw * bh;
    for b in 0..nb
        invariant
            image.wf(),
            settings.wf(),
            lt == settings.luma_table@,
            ct == settings.chroma_table@,
            bw == image.width / 8,
            bh == image.height / 8,
            image.width % 8 == 0,
            image.height % 8 == 0,
            image.width <= 65535,
            image.height <= 65535,
            nb == bw * bh,
            out@ == header + blocks_bytes(*image, lt, ct, b as nat),
    {
        proof {
            assert(bw != 0) by (nonlinear_arith)
                requires
                    b < nb,
                    nb == bw * bh,
                    0 <= b,
            ;
        }
        let bx: usize = b % bw;
        let by: usize = b / bw;
        proof {
            vstd::arithmetic::div_mod::lemma_multiply_divide_lt(b as int, bw as int, bh as int);
            assert(by < bh);
            assert(8 * bx + 8 <= 8 * bw) by (nonlinear_arith)
                requires
                    bx < bw,
            ;
            assert(8 * bw <= image.width) by (nonlinear_arith)
                requires
                    bw == image.width / 8,
                    image.width % 8 == 0,
                    image.width >= 0,
            ;
            assert(8 * by + 8 <= 8 * bh) by (nonlinear_arith)
                requires
                    by < bh,
            ;
            assert(8 * bh <= image.height) by (nonlinear_arith)
                requires
                    bh == image.height / 8,
                    image.height % 8 == 0,
                    image.height >= 0,
            ;
        }
        let (l, a, bb) = block_samples(image, bx, by);
        let c0: [u8; 64] = channel_coded(&l, settings.luma_table);
        let c1: [u8; 64] = channel_coded(&a, settings.chroma_table);
        let c2: [u8; 64] = channel_coded(&bb, settings.chroma_table);
        push_64(&mut out, &c0);
        push_64(&mut out, &c1);
        push_64(&mut out, &c2);
        proof {
            assert(l@ =~= block_channel(*image, b as int, 0));
            assert(a@ =~= block_channel(*image, b as int, 1));
            assert(bb@ =~= block_channel(*image, b as int, 2));
            assert(out@ =~= header + blocks_bytes(*image, lt, ct, (b + 1) as nat));
        }
    }
    proof {
        assert(header + blocks_bytes(*image, lt, ct, nb as nat) =~= encode_bytes(*image, lt, ct));
    }
    Ok(out)
}

/// The image width named by a container's header.
pub open spec fn parsed_width(b: Seq<u8>) -> int {
    b[0] * 256 + b[1]
}

/// The image height named by a container's header.
pub open spec fn parsed_height(b: Seq<u8>) -> int {
    b[2] * 256 + b[3]
}

/// The luma quantization table carried in a container's header.
pub open spec fn parsed_luma(b: Seq<u8>) -> Seq<i32> {
    Seq::new(64, |i: int| i8_of_byte(b[4 + i] as int) as i32)
}

/// The chroma quantization table carried in a container's header.
pub open spec fn parsed_chroma(b: Seq<u8>) -> Seq<i32> {
    Seq::new(64, |i: int| i8_of_byte(b[68 + i] as int) as i32)
}

/// How many block-data bytes the header's dimensions call for.
pub open spec fn payload_len(b: Seq<u8>) -> int {
    (parsed_width(b) / 8) * (parsed_height(b) / 8) * 192
}

/// Whether a byte sequence decodes: a full header, dimensions divisible
/// by 8, and all the block data its dimensions call for.
pub open spec fn decode_ok(b: Seq<u8>) -> bool {
    &&& b.len() >= 4
    &&& parsed_width(b) % 8 == 0
    &&& parsed_height(b) % 8 == 0
    &&& b.len() >= 132 + payload_len(b)
}

/// The error a byte sequence that does not decode is rejected with:
/// short of a header or of block data is a truncation, dimensions not
/// divisible by 8 are a precondition violation.
pub open spec fn decode_err(b: Seq<u8>) -> Error {
    if b.len() < 4 {
        Error::Truncated
    } else if parsed_width(b) % 8 != 0 || parsed_height(b) % 8 != 0 {
        Error::InvalidDimensions
    } else {
        Error::Truncated
    }
}

/// The decoded samples of one channel of block `blk` of a container.
pub open spec fn decoded_channel(b: Seq<u8>, blk: int, ch: int) -> Seq<i8> {
    let off = 132 + blk * 192 + ch * 64;
    let t = if ch == 0 {
        parsed_luma(b)
    } else {
        parsed_chroma(b)
    };
    channel_samples(b.subrange(off, off + 64), t)
}

/// The decoded pixel at buffer index `p` of a container's image.
pub open spec fn decoded_pixel(by: Seq<u8>, p: int) -> Lab8 {
    let w = parsed_width(by);
    let px = p % w;
    let py = p / w;
    let blk = (py / 8) * (w / 8) + px / 8;
    let e = (py % 8) * 8 + px % 8;
    Lab8 {
        l: decoded_channel(by, blk, 0)[e],
        a: decoded_channel(by, blk, 1)[e],
        b: decoded_channel(by, blk, 2)[e],
    }
}

/// Copies 64 bytes out of a byte sequence.
fn read64(bytes: &[u8], off: usize) -> (r: [u8; 64])
    requires
        off + 64 <= bytes@.len(),
    ensures
        r@ == bytes@.subrange(off as int, off as int + 64),
{
    let m: usize = bytes.len();
    let mut out: [u8; 64] = [0; 64];
    for i in 0..64
        invariant
            m == bytes@.len(),
            off + 64 <= m,
            out@.len() == 64,
            forall|j: int| 0 <= j < i ==> #[trigger] out@[j] == bytes@[off + j],
    {
        out[i] = bytes[off + i];
    }
    proof {
        assert(out@ =~= bytes@.subrange(off as int, off as int + 64));
    }
    out
}

/// Decodes a container byte sequence back into a three-channel image,
/// reconstructing the quantization tables from the header so no further
/// input is needed. Block order and channel order mirror `encode`
/// exactly, since the format carries no per-block markers. Trailing
/// bytes beyond the block data are ignored.
pub fn decode(bytes: &[u8]) -> (r: Result<Image<Lab8>, Error>)
    ensures
        decode_ok(bytes@) ==> (r matches Ok(img) && img.wf() && img.width == parsed_width(bytes@)
            && img.height == parsed_height(bytes@) && forall|p: int|
            0 <= p < img.data@.len() ==> img.data@[p] == decoded_pixel(bytes@, p)),
        !decode_ok(bytes@) ==> (r matches Err(e) && e == decode_err(bytes@)),
{
    let n: usize = bytes.len();
    if n < 4 {
        return Err(Error::Truncated);
    }
    let w: usize = (bytes[0] as usize) * 256 + (bytes[1] as usize);
    let h: usize = (bytes[2] as usize) * 256 + (bytes[3] as usize);
    if w % 8 != 0 || h % 8 != 0 {
        return Err(Error::InvalidDimensions);
    }
    let bw: usize = w / 8;
    let bh: usize = h / 8;
    proof {
        assert(bw * bh <= 8191 * 8191) by (nonlinear_arith)
            requires
                bw <= 8191,
                bh <= 8191,
        ;
    }
    let nb: usize = bw * bh;
    if n < 132 || ((n as u64) - 132) / 192 < nb as u64 {
        proof {
            assert(!decode_ok(bytes@)) by (nonlinear_arith)
                requires
                    n == bytes@.len(),
                    nb == bw * bh,
                    bw == parsed_width(bytes@) / 8,
                    bh == parsed_height(bytes@) / 8,
                    parsed_width(bytes@) % 8 == 0,
                    parsed_height(bytes@) % 8 == 0,
                    n >= 4,
                    n < 132 || ((n - 132) as int) / 192 < nb,
                    192int > 0,
                    payload_len(bytes@) == (parsed_width(bytes@) / 8) * (parsed_height(bytes@) / 8)
                        * 192,
            ;
        }
        return Err(Error::Truncated);
    }
    proof {
        assert(132 + nb * 192 <= n) by (nonlinear_arith)
            requires
                n >= 132,
                ((n - 132) as int) / 192 >= nb,
                0 <= nb,
        ;
        assert(decode_ok(bytes@));
    }
    let mut lt_arr: [i32; 64] = [0; 64];
    let mut ct_arr: [i32; 64] = [0; 64];
    for i in 0..64
        invariant
            n == bytes@.len(),
            n >= 132,
            lt_arr@.len() == 64,
            ct_arr@.len() == 64,
            forall|j: int| 0 <= j < i ==> #[trigger] lt_arr@[j] == parsed_luma(bytes@)[j],
            forall|j: int| 0 <= j < i ==> #[trigger] ct_arr@[j] == parsed_chroma(bytes@)[j],
            forall|j: int| 0 <= j < i ==> -128 <= #[trigger] lt_arr@[j] <= 127,
            forall|j: int| 0 <= j < i ==> -128 <= #[trigger] ct_arr@[j] <= 127,
    {
        lt_arr[i] = signed_of_byte(bytes[4 + i]) as i32;
        ct_arr[i] = signed_of_byte(bytes[68 + i]) as i32;
    }
    let lt: Unit<i32> = Unit::new(lt_arr);
    let ct: Unit<i32> = Unit::new(ct_arr);
    let mut blocks: Vec<([i8; 64], [i8; 64], [i8; 64])> = Vec::new();
    for blk in 0..nb
        invariant
            n == bytes@.len(),
            n >= 132 + nb * 192,
            lt@ == parsed_luma(bytes@),
            ct@ == parsed_chroma(bytes@),
            forall|j: int| 0 <= j < 64 ==> -128 <= #[trigger] lt@[j] <= 127,
            forall|j: int| 0 <= j < 64 ==> -128 <= #[trigger] ct@[j] <= 127,
            blocks@.len() == blk,
            forall|k: int|
                0 <= k < blk ==> (#[trigger] blocks@[k]).0@ == decoded_channel(bytes@, k, 0)
                    && blocks@[k].1@ == decoded_channel(bytes@, k, 1) && blocks@[k].2@
                    == decoded_channel(bytes@, k, 2),
    {
        proof {
            assert(blk * 192 + 192 <= nb * 192) by (nonlinear_arith)
                requires
                    blk < nb,
                    0 <= blk,
            ;
        }
        let off: usize = 132 + blk * 192;
        let z0: [u8; 64] = read64(bytes, off);
        let z1: [u8; 64] = read64(bytes, off + 64);
        let z2: [u8; 64] = read64(bytes, off + 128);
        let d0: [i8; 64] = channel_decoded(&z0, lt);
        let d1: [i8; 64] = channel_decoded(&z1, ct);
        let d2: [i8; 64] = channel_decoded(&z2, ct);
        blocks.push((d0, d1, d2));
    }
    proof {
        assert(w * h == 64 * nb) by (nonlinear_arith)
            requires
                w % 8 == 0,
                h % 8 == 0,
                bw == w / 8,
                bh == h / 8,
                nb == bw * bh,
                0 <= w,
                0 <= h,
        ;
        assert(64 * nb <= n);
    }
    let total: usize = w * h;
    let mut data: Vec<Lab8> = Vec::new();
    for p in 0..total
        invariant
            n == bytes@.len(),
            w == parsed_width(bytes@),
            h == parsed_height(bytes@),
            w % 8 == 0,
            h % 8 == 0,
            bw == w / 8,
            bh == h / 8,
            nb == bw * bh,
            total == w * h,
            blocks@.len() == nb,
            forall|k: int|
                0 <= k < nb ==> (#[trigger] blocks@[k]).0@ == decoded_channel(bytes@, k, 0)
                    && blocks@[k].1@ == decoded_channel(bytes@, k, 1) && blocks@[k].2@
                    == decoded_channel(bytes@, k, 2),
            data@.len() == p,
            forall|j: int| 0 <= j < p ==> #[trigger] data@[j] == decoded_pixel(bytes@, j),
    {
        proof {
            assert(w > 0) by (nonlinear_arith)
                requires
                    p < total,
                    total == w * h,
                    0 <= p,
            ;
            vstd::arithmetic::div_mod::lemma_multiply_divide_lt(p as int, w as int, h as int);
        }
        let px: usize = p % w;
        let py: usize = p / w;
        let bx: usize = px / 8;
        let byy: usize = py / 8;
        proof {
            vstd::arithmetic::div_mod::lemma_multiply_divide_lt(px as int, 8, bw as int);
            vstd::arithmetic::div_mod::lemma_multiply_divide_lt(py as int, 8, bh as int);
            assert(byy * bw + bx < nb) by (nonlinear_arith)
                requires
                    bx < bw,
                    byy < bh,
                    nb == bw * bh,
            ;
        }
        let blk: usize = byy * bw + bx;
        let e: usize = (py % 8) * 8 + px % 8;
        let d0: i8 = blocks[blk].0[e];
        let d1: i8 = blocks[blk].1[e];
        let d2: i8 = blocks[blk].2[e];
        data.push(Lab8 { l: d0, a: d1, b: d2 });
        proof {
            assert(data@[p as int] == decoded_pixel(bytes@, p as int));
        }
    }
    Ok(Image::new(w, h, data))
}

/// What one channel of one block comes back as after encoding and
/// decoding: the transform of the samples, quantized and wrapped to a
/// byte, dequantized, inverse-transformed and wrapped to a sample. The
/// reordering and the byte trip cancel; this loss is what remains.
pub open spec fn round_trip_channel(s: Seq<i8>, t: Seq<i32>) -> Seq<i8> {
    let f = dct_of(ints_of(widen_seq(s)));
    let q = Seq::new(64, |i: int| wrap_i8(tdiv(f[i], t[i] as int)));
    let d = Seq::new(64, |i: int| q[i] * t[i]);
    let p = inv_dct_of(d);
    Seq::new(64, |i: int| wrap_i8(p[i]) as i8)
}

/// Decoding one channel's own encoding undoes the zigzag reordering and
/// the byte reinterpretation exactly, leaving only the quantization and
/// fixed-point loss.
pub proof fn lemma_channel_round_trip(s: Seq<i8>, t: Seq<i32>)
    requires
        s.len() == 64,
        t.len() == 64,
        forall|i: int| 0 <= i < 64 ==> 1 <= #[trigger] t[i] <= 127,
    ensures
        channel_samples(channel_bytes(s, t), t) == round_trip_channel(s, t),
{
    lemma_zigzag_tables();
    let f = dct_of(ints_of(widen_seq(s)));
    let qi = Seq::new(64, |i: int| tdiv(f[i], t[i] as int));
    let cb = channel_bytes(s, t);
    let u = inv_zigzag_of(cb);
    assert forall|j: int| 0 <= j < 64 implies u[j] as int == low_byte(qi[j]) by {
        assert(cb[INV_ZIGZAG@[j] as int] as int == low_byte(
            zigzag_of(qi)[INV_ZIGZAG@[j] as int],
        ));
        vstd::arithmetic::div_mod::lemma_mod_division_less_than_divisor(qi[j], 256);
    }
    let q = Seq::new(64, |i: int| wrap_i8(tdiv(f[i], t[i] as int)));
    let d1 = Seq::new(64, |i: int| i8_of_byte(u[i] as int) * t[i]);
    let d2 = Seq::new(64, |i: int| q[i] * t[i]);
    assert forall|j: int| 0 <= j < 64 implies d1[j] == d2[j] by {
        lemma_byte_wrap(qi[j]);
    }
    assert(d1 =~= d2);
    assert(channel_samples(cb, t) =~= round_trip_channel(s, t));
}

/// The container bytes of `n` blocks take 192 bytes per block.
proof fn lemma_blocks_len(img: Image<Lab8>, lt: Seq<i32>, ct: Seq<i32>, n: nat)
    ensures
        blocks_bytes(img, lt, ct, n).len() == 192 * n,
    decreases n,
{
    if n > 0 {
        lemma_blocks_len(img, lt, ct, (n - 1) as nat);
    }
}

/// Block `k`'s bytes sit at offset 192·k of the concatenated block data.
proof fn lemma_blocks_index(img: Image<Lab8>, lt: Seq<i32>, ct: Seq<i32>, n: nat, k: int)
    requires
        0 <= k < n,
    ensures
        blocks_bytes(img, lt, ct, n).subrange(192 * k, 192 * k + 192) == block_bytes(
            img,
            lt,
            ct,
            k,
        ),
    decreases n,
{
    lemma_blocks_len(img, lt, ct, n);
    lemma_blocks_len(img, lt, ct, (n - 1) as nat);
    if k == n - 1 {
        assert(blocks_bytes(img, lt, ct, n).subrange(192 * k, 192 * k + 192) =~= block_bytes(
            img,
            lt,
            ct,
            k,
        ));
    } else {
        lemma_blocks_index(img, lt, ct, (n - 1) as nat, k);
        assert(blocks_bytes(img, lt, ct, n).subrange(192 * k, 192 * k + 192) =~= blocks_bytes(
            img,
            lt,
            ct,
            (n - 1) as nat,
        ).subrange(192 * k, 192 * k + 192));
    }
}

/// What one pixel of an image comes back as after the full container
/// round trip at the given tables.
pub open spec fn round_trip_pixel(img: Image<Lab8>, lt: Seq<i32>, ct: Seq<i32>, p: int) -> Lab8 {
    let w = img.width as int;
    let px = p % w;
    let py = p / w;
    let blk = (py / 8) * (w / 8) + px / 8;
    let e = (py % 8) * 8 + px % 8;
    Lab8 {
        l: round_trip_channel(block_channel(img, blk, 0), lt)[e],
        a: round_trip_channel(block_channel(img, blk, 1), ct)[e],
        b: round_trip_channel(block_channel(img, blk, 2), ct)[e],
    }
}

/// Container round trip: decoding an encoded image always succeeds, the
/// dimensions and tables come back exactly, and every pixel comes back
/// as precisely the lossy per-channel transform round trip — the block
/// walk, the reordering and the byte layout cancel without residue.
pub proof fn lemma_round_trip(s: Settings, img: Image<Lab8>)
    requires
        img.wf(),
        s.wf(),
        encodable(img),
    ensures
        ({
            let b = encode_bytes(img, s.luma_table@, s.chroma_table@);
            &&& decode_ok(b)
            &&& parsed_width(b) == img.width
            &&& parsed_height(b) == img.height
            &&& parsed_luma(b) == s.luma_table@
            &&& parsed_chroma(b) == s.chroma_table@
            &&& forall|p: int|
                0 <= p < img.width * img.height ==> #[trigger] decoded_pixel(b, p)
                    == round_trip_pixel(img, s.luma_table@, s.chroma_table@, p)
        }),
{
    lemma_unit_len(s.luma_table);
    lemma_unit_len(s.chroma_table);
    let lt = s.luma_table@;
    let ct = s.chroma_table@;
    let b = encode_bytes(img, lt, ct);
    let w = img.width as int;
    let h = img.height as int;
    let bw = w / 8;
    let bh = h / 8;
    let nb = bw * bh;
    let blocks = blocks_bytes(img, lt, ct, nb as nat);
    assert(0 <= nb) by (nonlinear_arith)
        requires
            0 <= bw,
            0 <= bh,
            nb == bw * bh,
    ;
    lemma_blocks_len(img, lt, ct, nb as nat);
    let header = be16(w) + be16(h) + table_bytes(lt) + table_bytes(ct);
    assert(header.len() == 132);
    assert(b.len() == 132 + 192 * nb);
    // The header parses back to what was written.
    assert(b[0] == (w / 256) as u8);
    assert(b[1] == (w % 256) as u8);
    assert(b[2] == (h / 256) as u8);
    assert(b[3] == (h % 256) as u8);
    assert(parsed_width(b) == (w / 256) * 256 + w % 256);
    vstd::arithmetic::div_mod::lemma_fundamental_div_mod(w, 256);
    vstd::arithmetic::div_mod::lemma_fundamental_div_mod(h, 256);
    assert(parsed_width(b) == w);
    assert(parsed_height(b) == h);
    // The tables parse back to what was written.
    assert forall|i: int| 0 <= i < 64 implies parsed_luma(b)[i] == lt[i] by {
        assert(b[4 + i] == table_bytes(lt)[i]);
        vstd::arithmetic::div_mod::lemma_small_mod(lt[i] as nat, 256);
    }
    assert forall|i: int| 0 <= i < 64 implies parsed_chroma(b)[i] == ct[i] by {
        assert(b[68 + i] == table_bytes(ct)[i]);
        vstd::arithmetic::div_mod::lemma_small_mod(ct[i] as nat, 256);
    }
    assert(parsed_luma(b) =~= lt);
    assert(parsed_chroma(b) =~= ct);
    assert(payload_len(b) == 192 * nb) by (nonlinear_arith)
        requires
            payload_len(b) == (parsed_width(b) / 8) * (parsed_height(b) / 8) * 192,
            parsed_width(b) / 8 == bw,
            parsed_height(b) / 8 == bh,
            nb == bw * bh,
    ;
    assert(decode_ok(b));
    // Every decoded channel segment is the encoding of its own block
    // channel, so the channel round trip applies.
    assert forall|k: int, ch: int| 0 <= k < nb && 0 <= ch < 3 implies decoded_channel(b, k, ch)
        == channel_samples(
        channel_bytes(block_channel(img, k, ch), if ch == 0 { lt } else { ct }),
        if ch == 0 {
            lt
        } else {
            ct
        },
    ) by {
        lemma_blocks_index(img, lt, ct, nb as nat, k);
        assert(0 <= 192 * k && 192 * k + 192 <= 192 * nb) by (nonlinear_arith)
            requires
                0 <= k < nb,
        ;
        let off = 132 + k * 192 + ch * 64;
        assert(b.subrange(off, off + 64) =~= blocks.subrange(192 * k, 192 * k + 192).subrange(
            ch * 64,
            ch * 64 + 64,
        ));
        assert(blocks.subrange(192 * k, 192 * k + 192).subrange(ch * 64, ch * 64 + 64)
            =~= channel_bytes(block_channel(img, k, ch), if ch == 0 { lt } else { ct }));
    }
    // And therefore every decoded pixel is the round-tripped pixel.
    assert forall|p: int| 0 <= p < img.width * img.height implies #[trigger] decoded_pixel(b, p)
        == round_trip_pixel(img, lt, ct, p) by {
        assert(w > 0 && h > 0) by (nonlinear_arith)
            requires
                0 <= p < w * h,
                0 <= w,
                0 <= h,
        ;
        let px = p % w;
        let py = p / w;
        vstd::arithmetic::div_mod::lemma_multiply_divide_lt(p, w, h);
        vstd::arithmetic::div_mod::lemma_mod_division_less_than_divisor(p, w);
        vstd::arithmetic::div_mod::lemma_div_pos_is_pos(p, w);
        vstd::arithmetic::div_mod::lemma_multiply_divide_lt(px, 8, bw);
        vstd::arithmetic::div_mod::lemma_multiply_divide_lt(py, 8, bh);
        vstd::arithmetic::div_mod::lemma_div_pos_is_pos(px, 8);
        vstd::arithmetic::div_mod::lemma_div_pos_is_pos(py, 8);
        let blk = (py / 8) * bw + px / 8;
        assert(0 <= blk < nb) by (nonlinear_arith)
            requires
                0 <= px / 8 < bw,
                0 <= py / 8 < bh,
                blk == (py / 8) * bw + px / 8,
                nb == bw * bh,
        ;
        lemma_channel_round_trip(block_channel(img, blk, 0), lt);
        lemma_channel_round_trip(block_channel(img, blk, 1), ct);
        lemma_channel_round_trip(block_channel(img, blk, 2), ct);
    }
}

} // verus!
