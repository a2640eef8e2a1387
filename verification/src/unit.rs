//! Fixed 8×8 blocks of samples: the atomic unit of the transform,
//! quantization and reordering steps.

use vstd::prelude::*;

verus! {

use vstd::arithmetic::div_mod::lemma_div_is_ordered;
use vstd::arithmetic::div_mod::lemma_div_multiples_vanish;
use vstd::arithmetic::div_mod::lemma_div_nonincreasing;
use vstd::arithmetic::div_mod::lemma_div_pos_is_pos;
use vstd::arithmetic::div_mod::lemma_fundamental_div_mod;
use vstd::arithmetic::div_mod::lemma_mod_division_less_than_divisor;

/// Fixed-point cosine matrix: entry `k + 8·n` holds
/// cos(π/8 · k · (0.5 + n)) · c(k) scaled by `FIX_SCALE` and rounded,
/// with c(0) = 1/(2·√2) and c(k) = 1/2 otherwise.
pub const DCT_MUL: [i32; 64] = [
    741455,  1028427,  968757,   871859,  741455,   582557,  401272,   204567,
    741455,   871859,  401272,  -204567, -741455, -1028427, -968757,  -582557,
    741455,   582557, -401272, -1028427, -741455,   204567,  968757,   871859,
    741455,   204567, -968757,  -582557,  741455,   871859, -401273, -1028427,
    741455,  -204567, -968757,   582557,  741455,  -871859, -401273,  1028427,
    741455,  -582557, -401272,  1028427, -741455,  -204567,  968757,  -871859,
    741455,  -871859,  401272,   204567, -741455,  1028427, -968757,   582557,
    741455, -1028427,  968757,  -871859,  741455,  -582557,  401273,  -204567,
];

/// The fixed-point scale: 2^21. Each transform pass rescales its summed
/// products by flooring their quotient with this constant.
pub const FIX_SCALE: i64 = 2097152;

/// Magnitude bound on every entry of `DCT_MUL`.
pub const MAT_BOUND: i64 = 1028427;

/// A matrix entry of `DCT_MUL` as a mathematical integer.
pub open spec fn mat(i: int) -> int
    recommends
        0 <= i < 64,
{
    DCT_MUL@[i] as int
}

/// A 32-bit sample sequence read as mathematical integers.
pub open spec fn ints_of(s: Seq<i32>) -> Seq<int> {
    Seq::new(s.len(), |i: int| s[i] as int)
}

/// The sum of the first `n` products `s[sb + ss·j] · mat(mb + ms·j)`:
/// one strided row-times-column product of a transform pass.
pub open spec fn dsum(s: Seq<int>, sb: int, ss: int, mb: int, ms: int, n: nat) -> int
    decreases n,
{
    if n == 0 {
        0
    } else {
        dsum(s, sb, ss, mb, ms, (n - 1) as nat) + s[sb + ss * (n - 1)] * mat(mb + ms * (n - 1))
    }
}

/// First forward pass: entry `y + 8·k` holds the rescaled product of
/// input column `y` with matrix row `k`.
pub open spec fn dct_pass1(s: Seq<int>) -> Seq<int> {
    Seq::new(64, |i: int| dsum(s, i % 8, 8, i / 8, 8, 8) / (FIX_SCALE as int))
}

/// Second forward pass: entry `k + 8·x` holds the rescaled product of
/// intermediate row `x` with matrix row `k`.
pub open spec fn dct_pass2(m: Seq<int>) -> Seq<int> {
    Seq::new(64, |i: int| dsum(m, 8 * (i / 8), 1, i % 8, 8, 8) / (FIX_SCALE as int))
}

/// The full fixed-point forward transform of a block.
pub open spec fn dct_of(s: Seq<int>) -> Seq<int> {
    dct_pass2(dct_pass1(s))
}

/// First inverse pass: as the forward pass but contracting over the
/// first matrix index (the transpose application).
pub open spec fn inv_dct_pass1(s: Seq<int>) -> Seq<int> {
    Seq::new(64, |i: int| dsum(s, i % 8, 8, 8 * (i / 8), 1, 8) / (FIX_SCALE as int))
}

/// Second inverse pass, transposed like the first.
pub open spec fn inv_dct_pass2(m: Seq<int>) -> Seq<int> {
    Seq::new(64, |i: int| dsum(m, 8 * (i / 8), 1, 8 * (i % 8), 1, 8) / (FIX_SCALE as int))
}

/// The full fixed-point inverse transform of a block.
pub open spec fn inv_dct_of(s: Seq<int>) -> Seq<int> {
    inv_dct_pass2(inv_dct_pass1(s))
}

/// Every entry of the cosine matrix is bounded by `MAT_BOUND`.
pub proof fn lemma_mat_bounds()
    ensures
        forall|i: int| 0 <= i < 64 ==> -MAT_BOUND <= #[trigger] DCT_MUL@[i] <= MAT_BOUND,
{
}

/// Floors the quotient of a summed product with `FIX_SCALE`: the
/// effect of an arithmetic right shift by 21, consistent truncation
/// toward negative infinity in both transform directions.
fn shr_fix(c: i64) -> (r: i64)
    requires
        -0x1000000000000000 <= c <= 0x1000000000000000,
    ensures
        r == c as int / (FIX_SCALE as int),
{
    if c >= 0 {
        c / FIX_SCALE
    } else {
        -((-c + (FIX_SCALE - 1)) / FIX_SCALE)
    }
}

/// One strided row-times-column product of a transform pass, summed in
/// 64-bit arithmetic.
fn dsum_row(s: &[i32; 64], sb: usize, ss: usize, mb: usize, ms: usize, bound: i64) -> (c: i64)
    requires
        ss == 1 || ss == 8,
        ms == 1 || ms == 8,
        sb + ss * 7 < 64,
        mb + ms * 7 < 64,
        1 <= bound <= 0x10000000,
        forall|j: int| 0 <= j < 64 ==> -bound <= #[trigger] s@[j] <= bound,
    ensures
        c == dsum(ints_of(s@), sb as int, ss as int, mb as int, ms as int, 8),
        -(8 * bound * MAT_BOUND) <= c <= 8 * bound * MAT_BOUND,
{
    let mut c: i64 = 0;
    for n in 0..8
        invariant
            ss == 1 || ss == 8,
            ms == 1 || ms == 8,
            sb + ss * 7 < 64,
            mb + ms * 7 < 64,
            1 <= bound <= 0x10000000,
            forall|j: int| 0 <= j < 64 ==> -bound <= #[trigger] s@[j] <= bound,
            c == dsum(ints_of(s@), sb as int, ss as int, mb as int, ms as int, n as nat),
            -((n as int) * bound * MAT_BOUND) <= c <= (n as int) * bound * MAT_BOUND,
    {
        proof {
            lemma_mat_bounds();
            assert(ss * n <= ss * 7) by (nonlinear_arith)
                requires
                    0 <= n < 8,
                    0 <= ss,
            ;
            assert(ms * n <= ms * 7) by (nonlinear_arith)
                requires
                    0 <= n < 8,
                    0 <= ms,
            ;
        }
        let si: usize = sb + ss * n;
        let mi: usize = mb + ms * n;
        let xv: i64 = s[si] as i64;
        let mv: i64 = DCT_MUL[mi] as i64;
        proof {
            assert(-bound <= s@[si as int] <= bound);
            assert(-MAT_BOUND <= DCT_MUL@[mi as int] <= MAT_BOUND);
            assert(-(bound * MAT_BOUND) <= xv * mv <= bound * MAT_BOUND) by (nonlinear_arith)
                requires
                    -bound <= xv <= bound,
                    -MAT_BOUND <= mv <= MAT_BOUND,
                    1 <= bound,
                    MAT_BOUND == 1028427,
            ;
            assert((n as int + 1) * bound * MAT_BOUND == (n as int) * bound * MAT_BOUND + bound * MAT_BOUND)
                by (nonlinear_arith);
            assert(8 * bound * MAT_BOUND <= 8 * 0x10000000 * MAT_BOUND) by (nonlinear_arith)
                requires
                    1 <= bound <= 0x10000000,
                    MAT_BOUND == 1028427,
            ;
            assert((n as int + 1) * bound * MAT_BOUND <= 8 * bound * MAT_BOUND) by (nonlinear_arith)
                requires
                    0 <= n < 8,
                    1 <= bound,
                    MAT_BOUND == 1028427,
            ;
        }
        c = c + xv * mv;
    }
    c
}

/// Sample base index of output position `i` in a transform pass.
spec fn pass_sb(pass1: bool, i: int) -> int {
    if pass1 {
        i % 8
    } else {
        8 * (i / 8)
    }
}

/// Sample stride of a transform pass.
spec fn pass_ss(pass1: bool) -> int {
    if pass1 {
        8
    } else {
        1
    }
}

/// Matrix base index of output position `i` in a transform pass.
spec fn pass_mb(transpose: bool, pass1: bool, i: int) -> int {
    let t = if pass1 {
        i / 8
    } else {
        i % 8
    };
    if transpose {
        8 * t
    } else {
        t
    }
}

/// Matrix stride of a transform pass.
spec fn pass_ms(transpose: bool) -> int {
    if transpose {
        1
    } else {
        8
    }
}

/// One full pass of the separable transform: every output position gets
/// the floored rescaling of its strided row-times-column product. The
/// forward transform contracts over the second matrix index, the inverse
/// (`transpose`) over the first.
fn transform_pass(s: &[i32; 64], pass1: bool, transpose: bool, bound: i64) -> (out: [i32; 64])
    requires
        1 <= bound <= 0x10000000,
        forall|j: int| 0 <= j < 64 ==> -bound <= #[trigger] s@[j] <= bound,
    ensures
        forall|i: int| 0 <= i < 64 ==> (#[trigger] out@[i]) as int == dsum(
            ints_of(s@),
            pass_sb(pass1, i),
            pass_ss(pass1),
            pass_mb(transpose, pass1, i),
            pass_ms(transpose),
            8,
        ) / (FIX_SCALE as int),
        forall|i: int| 0 <= i < 64 ==> -(4 * bound) <= #[trigger] out@[i] <= 4 * bound,
{
    let mut out: [i32; 64] = [0; 64];
    for i in 0..64
        invariant
            1 <= bound <= 0x10000000,
            forall|j: int| 0 <= j < 64 ==> -bound <= #[trigger] s@[j] <= bound,
            out@.len() == 64,
            forall|j: int| 0 <= j < i ==> (#[trigger] out@[j]) as int == dsum(
                ints_of(s@),
                pass_sb(pass1, j),
                pass_ss(pass1),
                pass_mb(transpose, pass1, j),
                pass_ms(transpose),
                8,
            ) / (FIX_SCALE as int),
            forall|j: int| 0 <= j < i ==> -(4 * bound) <= #[trigger] out@[j] <= 4 * bound,
    {
        let sb: usize = if pass1 {
            i % 8
        } else {
            8 * (i / 8)
        };
        let ss: usize = if pass1 {
            8
        } else {
            1
        };
        let t: usize = if pass1 {
            i / 8
        } else {
            i % 8
        };
        let mb: usize = if transpose {
            8 * t
        } else {
            t
        };
        let ms: usize = if transpose {
            1
        } else {
            8
        };
        let c: i64 = dsum_row(s, sb, ss, mb, ms, bound);
        let q: i64 = shr_fix(c);
        proof {
            let fs = FIX_SCALE as int;
            let hi = 8 * bound * MAT_BOUND;
            assert(hi <= 4 * bound * fs);
            lemma_div_is_ordered(c as int, hi, fs);
            lemma_div_is_ordered(-hi, c as int, fs);
            lemma_div_multiples_vanish(4 * bound, fs);
            lemma_div_multiples_vanish(-4 * bound, fs);
            assert(hi / fs <= (4 * bound * fs) / fs);
            assert((fs * (4 * bound)) / fs == 4 * bound);
            assert(4 * bound * fs == fs * (4 * bound)) by (nonlinear_arith);
            assert((-hi) / fs >= (fs * (-4 * bound)) / fs);
            assert(-(4 * bound) <= q <= 4 * bound);
        }
        out[i] = q as i32;
    }
    out
}

/// Zigzag scan order: entry `i` names the row-major position whose sample
/// lands at position `i` of the reordered block.
pub const ZIGZAG: [usize; 64] = [
     0,  1,  8, 16,  9,  2,  3, 10,
    17, 24, 32, 25, 18, 11,  4,  5,
    12, 19, 26, 33, 40, 48, 41, 34,
    27, 20, 13,  6,  7, 14, 21, 28,
    35, 42, 49, 56, 57, 50, 43, 36,
    29, 22, 15, 23, 30, 37, 44, 51,
    58, 59, 52, 45, 38, 31, 39, 46,
    53, 60, 61, 54, 47, 55, 62, 63,
];

/// Inverse of `ZIGZAG`: entry `i` names the zigzag position holding the
/// sample whose row-major position is `i`.
pub const INV_ZIGZAG: [usize; 64] = [
     0,  1,  5,  6, 14, 15, 27, 28,
     2,  4,  7, 13, 16, 26, 29, 42,
     3,  8, 12, 17, 25, 30, 41, 43,
     9, 11, 18, 24, 31, 40, 44, 53,
    10, 19, 23, 32, 39, 45, 52, 54,
    20, 22, 33, 38, 46, 51, 55, 60,
    21, 34, 37, 47, 50, 56, 59, 61,
    35, 36, 48, 49, 57, 58, 62, 63,
];

/// One 8×8 block of samples of a single channel, in row-major order
/// (index = y·8 + x). The length is fixed at 64 by the type.
#[derive(Clone, Copy, PartialEq, Debug)]
pub struct Unit<T> {
    data: [T; 64],
}

impl<T> View for Unit<T> {
    type V = Seq<T>;

    closed spec fn view(&self) -> Seq<T> {
        self.data@
    }
}

/// Every block holds exactly 64 samples.
pub broadcast proof fn lemma_unit_len<T>(u: Unit<T>)
    ensures
        #[trigger] u@.len() == 64,
{
}

/// The sequence `s` reordered into zigzag scan order.
pub open spec fn zigzag_of<T>(s: Seq<T>) -> Seq<T> {
    Seq::new(64, |i: int| s[ZIGZAG@[i] as int])
}

/// The sequence `s` taken out of zigzag scan order, back to row-major.
pub open spec fn inv_zigzag_of<T>(s: Seq<T>) -> Seq<T> {
    Seq::new(64, |i: int| s[INV_ZIGZAG@[i] as int])
}

/// Both scan-order tables are permutations of 0..64 and each is the
/// other's inverse.
pub proof fn lemma_zigzag_tables()
    ensures
        forall|i: int| 0 <= i < 64 ==> #[trigger] ZIGZAG@[i] < 64,
        forall|i: int| 0 <= i < 64 ==> #[trigger] INV_ZIGZAG@[i] < 64,
        forall|i: int| 0 <= i < 64 ==> ZIGZAG@[#[trigger] INV_ZIGZAG@[i] as int] == i,
        forall|i: int| 0 <= i < 64 ==> INV_ZIGZAG@[#[trigger] ZIGZAG@[i] as int] == i,
{
}

/// Undoing the zigzag reordering recovers every 64-sample sequence exactly.
pub proof fn lemma_zigzag_involution<T>(s: Seq<T>)
    requires
        s.len() == 64,
    ensures
        inv_zigzag_of(zigzag_of(s)) == s,
{
    lemma_zigzag_tables();
    assert(inv_zigzag_of(zigzag_of(s)) =~= s);
}

/// Rust's truncating integer division (rounding toward zero) for a
/// positive divisor, over the mathematical integers.
pub open spec fn tdiv(a: int, b: int) -> int
    recommends
        b >= 1,
{
    if a >= 0 {
        a / b
    } else {
        -((-a) / b)
    }
}

/// Dequantizing a quantized coefficient recovers it to within one table
/// entry: quantizing by `t` and multiplying back differs from the
/// original by strictly less than `t` in magnitude, and never crosses
/// zero the other way.
pub proof fn lemma_quantize_loss(x: int, t: int)
    requires
        t >= 1,
    ensures
        -t < x - tdiv(x, t) * t < t,
        x >= 0 ==> 0 <= x - tdiv(x, t) * t,
        x < 0 ==> x - tdiv(x, t) * t <= 0,
{
    if x >= 0 {
        lemma_fundamental_div_mod(x, t);
        lemma_mod_division_less_than_divisor(x, t);
        assert(x - (x / t) * t == x % t) by (nonlinear_arith)
            requires
                x == t * (x / t) + x % t,
        ;
    } else {
        lemma_fundamental_div_mod(-x, t);
        lemma_mod_division_less_than_divisor(-x, t);
        assert(x - (-((-x) / t)) * t == -((-x) % t)) by (nonlinear_arith)
            requires
                -x == t * ((-x) / t) + (-x) % t,
        ;
    }
}

impl Unit<i32> {
    /// Divides each coefficient by the matching table entry, rounding
    /// toward zero: the lossy frequency-domain compression step.
    pub fn quantize(self, table: Self) -> (r: Self)
        requires
            forall|i: int| 0 <= i < 64 ==> 1 <= #[trigger] table@[i],
        ensures
            r@.len() == 64,
            forall|i: int| 0 <= i < 64 ==> #[trigger] r@[i] as int == tdiv(
                self@[i] as int,
                table@[i] as int,
            ),
            forall|i: int|
                0 <= i < 64 ==> (0 <= #[trigger] r@[i] <= self@[i] || self@[i] <= r@[i] <= 0),
    {
        let mut out: [i32; 64] = [0; 64];
        for i in 0..64
            invariant
                forall|j: int| 0 <= j < 64 ==> 1 <= #[trigger] table@[j],
                forall|j: int| 0 <= j < i ==> #[trigger] out@[j] as int == tdiv(
                    self@[j] as int,
                    table@[j] as int,
                ),
                forall|j: int|
                    0 <= j < i ==> (0 <= #[trigger] out@[j] <= self@[j] || self@[j] <= out@[j]
                        <= 0),
        {
            proof {
                assert(1 <= table@[i as int]);
            }
            let x: i64 = self.data[i] as i64;
            let d: i64 = table.data[i] as i64;
            let q: i64 = if x >= 0 {
                proof {
                    lemma_div_pos_is_pos(x as int, d as int);
                    lemma_div_nonincreasing(x as int, d as int);
                }
                x / d
            } else {
                proof {
                    lemma_div_pos_is_pos(-x as int, d as int);
                    lemma_div_nonincreasing(-x as int, d as int);
                }
                -((-x) / d)
            };
            out[i] = q as i32;
        }
        Unit { data: out }
    }

    /// The separable two-pass fixed-point forward transform: type-II
    /// discrete cosine transform of the 8×8 block, rescaled after each
    /// pass by flooring with `FIX_SCALE`.
    pub fn dct(self) -> (r: Self)
        requires
            forall|i: int| 0 <= i < 64 ==> -16777216 <= #[trigger] self@[i] <= 16777216,
        ensures
            r@.len() == 64,
            forall|i: int| 0 <= i < 64 ==> (#[trigger] r@[i]) as int == dct_of(ints_of(self@))[i],
            forall|i: int| 0 <= i < 64 ==> -268435456 <= #[trigger] r@[i] <= 268435456,
    {
        proof {
            assert(self@ == self.data@);
        }
        let mid: [i32; 64] = transform_pass(&self.data, true, false, 16777216);
        proof {
            assert(ints_of(mid@) =~= dct_pass1(ints_of(self@)));
        }
        let out: [i32; 64] = transform_pass(&mid, false, false, 67108864);
        proof {
            assert(forall|i: int| 0 <= i < 64 ==> (#[trigger] out@[i]) as int == dct_of(ints_of(self@))[i]);
        }
        Unit { data: out }
    }

    /// The separable two-pass fixed-point inverse transform: applies the
    /// same cosine matrix contracted over its first index, exploiting
    /// the matrix's orthogonality so both directions share one table.
    pub fn inv_dct(self) -> (r: Self)
        requires
            forall|i: int| 0 <= i < 64 ==> -16777216 <= #[trigger] self@[i] <= 16777216,
        ensures
            r@.len() == 64,
            forall|i: int| 0 <= i < 64 ==> (#[trigger] r@[i]) as int == inv_dct_of(ints_of(self@))[i],
            forall|i: int| 0 <= i < 64 ==> -268435456 <= #[trigger] r@[i] <= 268435456,
    {
        proof {
            assert(self@ == self.data@);
        }
        let mid: [i32; 64] = transform_pass(&self.data, true, true, 16777216);
        proof {
            assert(ints_of(mid@) =~= inv_dct_pass1(ints_of(self@)));
        }
        let out: [i32; 64] = transform_pass(&mid, false, true, 67108864);
        proof {
            assert(forall|i: int| 0 <= i < 64 ==> (#[trigger] out@[i]) as int == inv_dct_of(
                ints_of(self@),
            )[i]);
        }
        Unit { data: out }
    }

    /// Multiplies each coefficient by the matching table entry: the
    /// algebraic inverse of `quantize` under exact arithmetic (under
    /// integer division the pair is lossy by design).
    pub fn inv_quantize(self, table: Self) -> (r: Self)
        requires
            forall|i: int| 0 <= i < 64 ==> i32::MIN <= (#[trigger] self@[i]) * table@[i]
                <= i32::MAX,
        ensures
            r@.len() == 64,
            forall|i: int| 0 <= i < 64 ==> #[trigger] r@[i] as int == self@[i] * table@[i],
    {
        let mut out: [i32; 64] = [0; 64];
        for i in 0..64
            invariant
                forall|j: int| 0 <= j < 64 ==> i32::MIN <= (#[trigger] self@[j]) * table@[j]
                    <= i32::MAX,
                forall|j: int| 0 <= j < i ==> #[trigger] out@[j] as int == self@[j] * table@[j],
        {
            proof {
                assert(i32::MIN <= self@[i as int] * table@[i as int] <= i32::MAX);
            }
            out[i] = self.data[i] * table.data[i];
        }
        Unit { data: out }
    }
}

impl<T: Copy> Unit<T> {
    /// Wraps an exact 64-element array.
    pub fn new(data: [T; 64]) -> (r: Self)
        ensures
            r@ == data@,
    {
        Unit { data }
    }

    /// Extracts the raw backing array, ending a transformation chain.
    pub fn unwrap(self) -> (r: [T; 64])
        ensures
            r@ == self@,
    {
        self.data
    }

    /// Applies an elementwise mapping to produce a block of another
    /// element type, preserving positions.
    pub fn convert<R: Copy>(self, f: impl Fn(T) -> R) -> (r: Unit<R>)
        requires
            forall|i: int| 0 <= i < 64 ==> call_requires(f, (self@[i],)),
        ensures
            r@.len() == 64,
            forall|i: int| 0 <= i < 64 ==> call_ensures(f, (self@[i],), #[trigger] r@[i]),
    {
        proof {
            assert(call_requires(f, (self@[0int],)));
        }
        let first: R = f(self.data[0]);
        let mut out: [R; 64] = [first; 64];
        for i in 0..64
            invariant
                forall|j: int| 0 <= j < 64 ==> call_requires(f, (self@[j],)),
                forall|j: int| 0 <= j < i ==> call_ensures(f, (self@[j],), #[trigger] out@[j]),
        {
            proof {
                assert(call_requires(f, (self@[i as int],)));
            }
            out[i] = f(self.data[i]);
        }
        Unit { data: out }
    }

    /// Reorders the 64 samples from row-major order into zigzag scan order.
    pub fn zigzag(self) -> (r: Self)
        ensures
            r@ == zigzag_of(self@),
    {
        proof {
            lemma_zigzag_tables();
        }
        let mut out: [T; 64] = self.data;
        for i in 0..64
            invariant
                out@.len() == 64,
                forall|j: int| 0 <= j < i ==> out@[j] == zigzag_of(self@)[j],
        {
            proof {
                lemma_zigzag_tables();
            }
            let p: usize = ZIGZAG[i];
            out[i] = self.data[p];
        }
        assert(out@ =~= zigzag_of(self@));
        Unit { data: out }
    }

    /// Reorders the 64 samples from zigzag scan order back to row-major.
    pub fn inv_zigzag(self) -> (r: Self)
        ensures
            r@ == inv_zigzag_of(self@),
    {
        proof {
            lemma_zigzag_tables();
        }
        let mut out: [T; 64] = self.data;
        for i in 0..64
            invariant
                out@.len() == 64,
                forall|j: int| 0 <= j < i ==> out@[j] == inv_zigzag_of(self@)[j],
        {
            proof {
                lemma_zigzag_tables();
            }
            let p: usize = INV_ZIGZAG[i];
            out[i] = self.data[p];
        }
        assert(out@ =~= inv_zigzag_of(self@));
        Unit { data: out }
    }
}

} // verus!
