//! Signed 128-bit products built from 64-bit halves.
use vstd::prelude::*;

verus! {

/// The value of a signed 128-bit number held as a high signed half and a low
/// unsigned half.
pub open spec fn int128_value(v: (i64, u64)) -> int {
    v.0 * 0x1_0000_0000_0000_0000int + v.1
}

proof fn lemma_split_u64(v: u64)
    ensures
        v >> 32u64 == v / 0x1_0000_0000,
        v & 0xFFFF_FFFFu64 == v % 0x1_0000_0000,
        v == (v / 0x1_0000_0000) * 0x1_0000_0000 + v % 0x1_0000_0000,
{
    assert(v >> 32u64 == v / 0x1_0000_0000) by (bit_vector);
    assert(v & 0xFFFF_FFFFu64 == v % 0x1_0000_0000) by (bit_vector);
}

proof fn lemma_shift_left_32(c: u64)
    ensures
        c << 32u64 == (c % 0x1_0000_0000) * 0x1_0000_0000,
        c as int * 0x1_0000_0000 == (c / 0x1_0000_0000) * 0x1_0000_0000_0000_0000int + (c
            % 0x1_0000_0000) * 0x1_0000_0000,
{
    assert(c << 32u64 == ((c % 0x1_0000_0000) * 0x1_0000_0000) as u64) by (bit_vector);
    assert((c % 0x1_0000_0000) * 0x1_0000_0000 < 0x1_0000_0000_0000_0000int) by (nonlinear_arith);
}

proof fn lemma_product_of_halves(l: int, r: int, h1: int, l1: int, h2: int, l2: int)
    requires
        l == h1 * 0x1_0000_0000 + l1,
        r == h2 * 0x1_0000_0000 + l2,
    ensures
        l * r == (h1 * h2) * 0x1_0000_0000_0000_0000int + (h1 * l2 + l1 * h2) * 0x1_0000_0000 + l1
            * l2,
{
    assert(l * r == (h1 * h2) * 0x1_0000_0000_0000_0000int + (h1 * l2 + l1 * h2) * 0x1_0000_0000
        + l1 * l2) by (nonlinear_arith)
        requires
            l == h1 * 0x1_0000_0000 + l1,
            r == h2 * 0x1_0000_0000 + l2,
    ;
}

/// The product of two magnitudes below 2^63, as a high and a low unsigned half.
fn mul_magnitudes(l: u64, r: u64) -> (res: (u64, u64))
    requires
        l < 0x8000_0000_0000_0000,
        r < 0x8000_0000_0000_0000,
    ensures
        res.0 < 0x8000_0000_0000_0000,
        res.0 * 0x1_0000_0000_0000_0000int + res.1 == l * r,
{
    let int1_hi = l >> 32;
    let int1_lo = l & 0xFFFF_FFFF;
    let int2_hi = r >> 32;
    let int2_lo = r & 0xFFFF_FFFF;
    proof {
        lemma_split_u64(l);
        lemma_split_u64(r);
        assert(int1_hi < 0x8000_0000);
        assert(int2_hi < 0x8000_0000);
        assert(int1_hi * int2_hi < 0x4000_0000_0000_0000) by (nonlinear_arith)
            requires
                int1_hi < 0x8000_0000,
                int2_hi < 0x8000_0000,
        ;
        assert(int1_lo * int2_lo <= 0xFFFF_FFFE_0000_0001) by (nonlinear_arith)
            requires
                int1_lo < 0x1_0000_0000,
                int2_lo < 0x1_0000_0000,
        ;
        assert(int1_hi * int2_lo <= 0x7FFF_FFFE_8000_0001) by (nonlinear_arith)
            requires
                int1_hi < 0x8000_0000,
                int2_lo < 0x1_0000_0000,
        ;
        assert(int1_lo * int2_hi <= 0x7FFF_FFFE_8000_0001) by (nonlinear_arith)
            requires
                int1_lo < 0x1_0000_0000,
                int2_hi < 0x8000_0000,
        ;
    }
    let a = int1_hi * int2_hi;
    let b = int1_lo * int2_lo;
    let c = int1_hi * int2_lo + int1_lo * int2_hi;
    let c1 = c << 32;
    let lo = c1.wrapping_add(b);
    let c_hi = c >> 32;
    proof {
        lemma_split_u64(c);
        lemma_shift_left_32(c);
        lemma_product_of_halves(
            l as int,
            r as int,
            int1_hi as int,
            int1_lo as int,
            int2_hi as int,
            int2_lo as int,
        );
    }
    let mut hi = a + c_hi;
    if lo < b {
        hi = hi + 1;
    }
    (hi, lo)
}

/// The exact signed product of two 64-bit integers, as a high signed half and a
/// low unsigned half of a two's-complement 128-bit number.
///
/// Neither factor may be `i64::MIN`, whose magnitude has no 64-bit signed form.
pub fn int128_mul(lhs: i64, rhs: i64) -> (res: (i64, u64))
    requires
        lhs != i64::MIN,
        rhs != i64::MIN,
    ensures
        int128_value(res) == lhs * rhs,
{
    let negate = (lhs < 0) != (rhs < 0);
    let l: u64 = if lhs < 0 {
        (-lhs) as u64
    } else {
        lhs as u64
    };
    let r: u64 = if rhs < 0 {
        (-rhs) as u64
    } else {
        rhs as u64
    };
    let (hi, lo) = mul_magnitudes(l, r);
    proof {
        if negate {
            assert(lhs * rhs == -(l * r)) by (nonlinear_arith)
                requires
                    (lhs < 0) != (rhs < 0),
                    l == if lhs < 0 { -lhs } else { lhs as int },
                    r == if rhs < 0 { -rhs } else { rhs as int },
            ;
        } else {
            assert(lhs * rhs == l * r) by (nonlinear_arith)
                requires
                    (lhs < 0) == (rhs < 0),
                    l == if lhs < 0 { -lhs } else { lhs as int },
                    r == if rhs < 0 { -rhs } else { rhs as int },
            ;
        }
    }
    let h = hi as i64;
    if !negate {
        (h, lo)
    } else if lo == 0 {
        (-h, 0)
    } else {
        assert(!h == -h - 1) by (bit_vector);
        assert(!lo == 0xFFFF_FFFF_FFFF_FFFFu64 - lo) by (bit_vector);
        (!h, !lo + 1)
    }
}

/// Subtracts two signed 128-bit numbers whose difference fits in 128 bits.
pub fn int128_sub(x: (i64, u64), y: (i64, u64)) -> (res: (i64, u64))
    requires
        i64::MIN < x.0 - y.0 <= i64::MAX,
    ensures
        int128_value(res) == int128_value(x) - int128_value(y),
{
    let lo = x.1.wrapping_sub(y.1);
    let borrow: i64 = if x.1 < y.1 {
        1
    } else {
        0
    };
    (x.0 - y.0 - borrow, lo)
}

/// The sign of an integer: 1, 0 or -1.
pub open spec fn sign_of(v: int) -> i8 {
    if v > 0 {
        1i8
    } else if v < 0 {
        -1i8
    } else {
        0i8
    }
}

/// The sign of a signed 128-bit number.
pub fn int128_sign(x: (i64, u64)) -> (res: i8)
    ensures
        res == sign_of(int128_value(x)),
{
    if x.0 < 0 {
        -1
    } else if x.0 == 0 && x.1 == 0 {
        0
    } else {
        1
    }
}

/// The largest magnitude of a difference of two `i64` values.
pub open spec fn in_diff_range(v: int) -> bool {
    -0xFFFF_FFFF_FFFF_FFFFint <= v <= 0xFFFF_FFFF_FFFF_FFFFint
}

proof fn lemma_mul_bound(a: int, b: int, m: int)
    requires
        -m <= a <= m,
        -m <= b <= m,
    ensures
        -(m * m) <= a * b <= m * m,
{
    assert(-(m * m) <= a * b <= m * m) by (nonlinear_arith)
        requires
            -m <= a <= m,
            -m <= b <= m,
    ;
}

fn magnitude(v: i128) -> (res: u128)
    requires
        in_diff_range(v as int),
    ensures
        res == if v < 0 { -v } else { v as int },
        res <= 0xFFFF_FFFF_FFFF_FFFF,
{
    if v < 0 {
        (-v) as u128
    } else {
        v as u128
    }
}

/// The sign of `a * b - c * d`, exactly, for factors that are differences of
/// two `i64` values.
///
/// Small factors take a 64-bit product; factors that fit in `i64` take the
/// 128-bit products of `int128_mul`; the rest compare unsigned 128-bit
/// magnitudes.
pub fn cross_sign(a: i128, b: i128, c: i128, d: i128) -> (res: i8)
    requires
        in_diff_range(a as int),
        in_diff_range(b as int),
        in_diff_range(c as int),
        in_diff_range(d as int),
    ensures
        res == sign_of(a * b - c * d),
{
    let small = 0x7FFF_FFFFi128;
    let wide = 0x7FFF_FFFF_FFFF_FFFFi128;
    if -small <= a && a <= small && -small <= b && b <= small && -small <= c && c <= small
        && -small <= d && d <= small {
        proof {
            lemma_mul_bound(a as int, b as int, 0x7FFF_FFFF);
            lemma_mul_bound(c as int, d as int, 0x7FFF_FFFF);
        }
        let a64 = a as i64;
        let b64 = b as i64;
        let c64 = c as i64;
        let d64 = d as i64;
        let v = a64 * b64 - c64 * d64;
        if v > 0 {
            1
        } else if v < 0 {
            -1
        } else {
            0
        }
    } else if -wide <= a && a <= wide && -wide <= b && b <= wide && -wide <= c && c <= wide
        && -wide <= d && d <= wide {
        let p = int128_mul(a as i64, b as i64);
        let q = int128_mul(c as i64, d as i64);
        proof {
            lemma_mul_bound(a as int, b as int, 0x7FFF_FFFF_FFFF_FFFF);
            lemma_mul_bound(c as int, d as int, 0x7FFF_FFFF_FFFF_FFFF);
        }
        let r = int128_sub(p, q);
        int128_sign(r)
    } else {
        let ma = magnitude(a);
        let mb = magnitude(b);
        let mc = magnitude(c);
        let md = magnitude(d);
        proof {
            lemma_mul_bound(ma as int, mb as int, 0xFFFF_FFFF_FFFF_FFFF);
            lemma_mul_bound(mc as int, md as int, 0xFFFF_FFFF_FFFF_FFFF);
        }
        let p = ma * mb;
        let q = mc * md;
        let p_neg = p != 0 && (a < 0) != (b < 0);
        let q_neg = q != 0 && (c < 0) != (d < 0);
        proof {
            assert(a * b == if p_neg { -p } else { p as int }) by (nonlinear_arith)
                requires
                    ma == if a < 0 { -a } else { a as int },
                    mb == if b < 0 { -b } else { b as int },
                    p == ma * mb,
                    p_neg == (p != 0 && (a < 0) != (b < 0)),
            ;
            assert(c * d == if q_neg { -q } else { q as int }) by (nonlinear_arith)
                requires
                    mc == if c < 0 { -c } else { c as int },
                    md == if d < 0 { -d } else { d as int },
                    q == mc * md,
                    q_neg == (q != 0 && (c < 0) != (d < 0)),
            ;
        }
        if !p_neg && !q_neg {
            if p > q {
                1
            } else if p < q {
                -1
            } else {
                0
            }
        } else if p_neg && q_neg {
            if q > p {
                1
            } else if q < p {
                -1
            } else {
                0
            }
        } else if !p_neg {
            // a * b >= 0 > c * d
            1
        } else {
            // a * b < 0 <= c * d
            -1
        }
    }
}

} // verus!
