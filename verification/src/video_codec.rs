use vstd::prelude::*;
use vstd::arithmetic::power::pow;

verus! {

/// One sample of a plane.
pub type Pixel = u16;

/// A rectangle of samples inside a buffer: `width` samples per row,
/// `height` rows, `sample_stride` from one sample to the next and
/// `row_stride` from one row to the next.
pub struct Plane<T> {
    pub data: T,
    pub width: usize,
    pub height: usize,
    pub sample_stride: usize,
    pub row_stride: usize,
}

/// The smaller of two samples.
pub open spec fn lower(a: Pixel, b: Pixel) -> Pixel {
    if a < b {
        a
    } else {
        b
    }
}

/// The larger of two samples.
pub open spec fn upper(a: Pixel, b: Pixel) -> Pixel {
    if a < b {
        b
    } else {
        a
    }
}

/// The sample predicted from the left neighbour `a`, the upper neighbour
/// `b` and the upper left neighbour `c`: where `c` is no smaller than both,
/// the smaller of `a` and `b`; where it is no larger than both, the larger;
/// in between, `a + b - c`.
pub open spec fn predicted(a: Pixel, b: Pixel, c: Pixel) -> int {
    if c >= upper(a, b) {
        lower(a, b) as int
    } else if c <= lower(a, b) {
        upper(a, b) as int
    } else {
        a + b - c
    }
}

/// The prediction for a sample from three of its neighbours. Where `c`
/// lies strictly between `a` and `b`, their sum has to fit a sample.
pub fn fixed_prediction(a: Pixel, b: Pixel, c: Pixel) -> (p: i32)
    requires
        lower(a, b) < c < upper(a, b) ==> a + b <= Pixel::MAX,
    ensures
        p == predicted(a, b, c),
{
    let min_a_b: Pixel = if a < b {
        a
    } else {
        b
    };
    let max_a_b: Pixel = if a < b {
        b
    } else {
        a
    };
    if c >= max_a_b {
        min_a_b as i32
    } else if c <= min_a_b {
        max_a_b as i32
    } else {
        (a + b - c) as i32
    }
}

/// `u64::pow` raises a number to a power; the result is the power where it
/// fits 64 bits, which the caller has to make sure of.
#[verifier::external_body]
fn pow_u64(base: u64, exp: u32) -> (power: u64)
    requires
        pow(base as int, exp as nat) <= u64::MAX,
    ensures
        power == pow(base as int, exp as nat),
{
    base.pow(exp)
}

/// Two to the power `k`, below 2^64, is at least 1.
proof fn lemma_pow2_fits(k: u32)
    requires
        k < 64,
    ensures
        1 <= pow(2, k as nat) <= u64::MAX,
{
    vstd::arithmetic::power2::lemma_pow2(k as nat);
    vstd::arithmetic::power2::lemma_pow2_strictly_increases(k as nat, 64);
    vstd::arithmetic::power2::lemma2_to64();
    vstd::arithmetic::power2::lemma_pow2_pos(k as nat);
}

/// The quotient of a Rice code with parameter `k`: `num` divided by 2^`k`.
/// The divisor has to fit 64 bits.
pub fn rice_quotient(k: u32, num: u64) -> (q: u64)
    requires
        k < 64,
    ensures
        q == num as int / pow(2, k as nat),
{
    proof {
        lemma_pow2_fits(k);
    }
    let m: u64 = pow_u64(2, k);
    num / m
}

} // verus!
