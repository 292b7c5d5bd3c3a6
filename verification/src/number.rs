//! The JSON number type.
//!
//! A number is any value that an `i64`, a `u64` or a finite double holds exactly. Doubles
//! enter and leave the library as their IEEE 754 bit patterns, so that every comparison
//! and conversion is integer arithmetic and exact.

use crate::layout::Layout;
use crate::layout::LayoutError;
use crate::Defrag;
use crate::DefragAllocator;
use std::cmp::Ordering;
use vstd::arithmetic::div_mod::lemma_fundamental_div_mod_converse;
use vstd::arithmetic::mul::lemma_mul_is_associative;
use vstd::arithmetic::power2::lemma2_to64;
use vstd::arithmetic::power2::lemma2_to64_rest;
use vstd::arithmetic::power2::lemma_pow2_adds;
use vstd::arithmetic::power2::lemma_pow2_pos;
use vstd::arithmetic::power2::lemma_pow2_strictly_increases;
use vstd::arithmetic::power2::lemma_pow2_unfold;
use vstd::arithmetic::power2::pow2;
use vstd::prelude::*;

verus! {

/// Smallest value kept in the static tier.
pub const STATIC_LOWER: i16 = -128;

/// One past the largest value kept in the static tier.
pub const STATIC_UPPER: i16 = 384;

/// Smallest value of a 24-bit signed integer.
pub const SHORT_LOWER: i64 = -0x0080_0000;

/// One past the largest value of a 24-bit signed integer.
pub const SHORT_UPPER: i64 = 0x0080_0000;

/// Weight of the exponent field in a double's bit pattern (2^52).
pub const EXP_UNIT: u64 = 0x0010_0000_0000_0000;

/// Weight of the sign bit in a double's bit pattern (2^63).
pub const SIGN_UNIT: u64 = 0x8000_0000_0000_0000;

/// Position of the binary point in [`INumber::scaled`]: every finite double is a whole
/// multiple of 2^-1074.
pub const POINT: u32 = 1074;

/// 2^e as an integer.
pub open spec fn two_to(e: u32) -> int {
    pow2(e as nat) as int
}

/// The factor by which [`INumber::scaled`] multiplies a value: 2^1074.
pub open spec fn scale() -> int {
    two_to(POINT)
}

/// Sign bit of a double's bit pattern.
pub open spec fn float_negative(bits: u64) -> bool {
    bits >= SIGN_UNIT
}

/// Biased exponent field of a double's bit pattern.
pub open spec fn float_exp(bits: u64) -> int {
    ((bits / EXP_UNIT) % 2048) as int
}

/// Fraction field of a double's bit pattern.
pub open spec fn float_frac(bits: u64) -> int {
    (bits % EXP_UNIT) as int
}

/// A bit pattern is finite when it is neither an infinity nor a NaN.
pub open spec fn float_finite(bits: u64) -> bool {
    float_exp(bits) != 2047
}

/// Significand of a finite double, with the hidden bit of a normal number made explicit.
pub open spec fn float_mant(bits: u64) -> int {
    if float_exp(bits) == 0 {
        float_frac(bits)
    } else {
        float_frac(bits) + EXP_UNIT
    }
}

/// Power of two by which the significand is multiplied to give the double's magnitude
/// times 2^1074.
pub open spec fn float_shift(bits: u64) -> int {
    if float_exp(bits) == 0 {
        0
    } else {
        float_exp(bits) - 1
    }
}

/// The value of a finite double, multiplied by 2^1074.
pub open spec fn float_scaled(bits: u64) -> int {
    let mag = float_mant(bits) * pow2(float_shift(bits) as nat);
    if float_negative(bits) {
        -mag
    } else {
        mag
    }
}

/// The ordering of two integers.
pub open spec fn order_of(x: int, y: int) -> Ordering {
    if x < y {
        Ordering::Less
    } else if x == y {
        Ordering::Equal
    } else {
        Ordering::Greater
    }
}

/// The opposite ordering.
pub open spec fn opposite_of(o: Ordering) -> Ordering {
    match o {
        Ordering::Less => Ordering::Greater,
        Ordering::Equal => Ordering::Equal,
        Ordering::Greater => Ordering::Less,
    }
}

/// A magnitude with its sign: the integer it stands for.
pub open spec fn signed_mag(negative: bool, mag: int) -> int {
    if negative {
        -mag
    } else {
        mag
    }
}

/// A 64-bit pattern read as a two's complement integer.
pub open spec fn signed(w: u64) -> int {
    if w < SIGN_UNIT {
        w as int
    } else {
        w as int - 0x1_0000_0000_0000_0000
    }
}

proof fn lemma_shl_is_mul(x: u128, n: u128)
    requires
        n < 128,
        x * pow2(n as nat) <= u128::MAX,
    ensures
        x << n == x * pow2(n as nat),
    decreases n,
{
    if n == 0 {
        assert(x << 0u128 == x) by (bit_vector);
        lemma2_to64();
    } else {
        let m = (n - 1) as u128;
        lemma_pow2_unfold(n as nat);
        lemma_pow2_pos(m as nat);
        assert(x * pow2(m as nat) <= x * pow2(n as nat)) by (nonlinear_arith)
            requires
                pow2(n as nat) == 2 * pow2(m as nat),
                pow2(m as nat) > 0,
        ;
        lemma_shl_is_mul(x, m);
        let y = x << m;
        assert(y * 2 == x * pow2(n as nat)) by (nonlinear_arith)
            requires
                y == x * pow2(m as nat),
                pow2(n as nat) == 2 * pow2(m as nat),
        ;
        assert(x << n == ((x << m) * 2) as u128) by (bit_vector)
            requires
                0 < n < 128,
                m == n - 1,
        ;
    }
}

/// `x * 2^k`, which fits in 128 bits for every 64-bit `x` and `k < 64`.
fn scale_up(x: u64, k: u32) -> (r: u128)
    requires
        k < 64,
    ensures
        r == x * two_to(k),
{
    proof {
        lemma2_to64();
        lemma_pow2_strictly_increases(k as nat, 64);
        assert(x * pow2(k as nat) <= u128::MAX) by (nonlinear_arith)
            requires
                x < 0x1_0000_0000_0000_0000,
                pow2(k as nat) < 0x1_0000_0000_0000_0000,
        ;
        lemma_shl_is_mul(x as u128, k as u128);
    }
    (x as u128) << (k as u128)
}

/// A 64-bit value widened to 128 bits.
fn widen(x: u64) -> (r: u128)
    ensures
        r == x,
{
    x as u128
}

proof fn lemma_two_to_split(hi: u32, lo: u32)
    requires
        lo <= hi,
    ensures
        two_to(hi) == two_to((hi - lo) as u32) * two_to(lo),
        two_to(lo) > 0,
        two_to((hi - lo) as u32) > 0,
{
    lemma_pow2_adds((hi - lo) as nat, lo as nat);
    lemma_pow2_pos(lo as nat);
    lemma_pow2_pos((hi - lo) as nat);
}

/// Aligning two scaled magnitudes at the smaller exponent keeps their order.
proof fn lemma_align(a: u64, ea: u32, b: u64, eb: u32)
    requires
        ea >= eb,
    ensures
        (a * two_to((ea - eb) as u32) < b) == (a * two_to(ea) < b * two_to(eb)),
        (a * two_to((ea - eb) as u32) == b) == (a * two_to(ea) == b * two_to(eb)),
        a >= 1 && ea - eb >= 64 ==> a * two_to((ea - eb) as u32) > u64::MAX,
        a == 0 ==> a * two_to((ea - eb) as u32) == 0,
{
    let k = (ea - eb) as u32;
    let f = two_to(eb);
    let x = a * two_to(k);
    lemma_two_to_split(ea, eb);
    lemma_mul_is_associative(a as int, two_to(k), f);
    assert(a * two_to(ea) == x * f);
    assert((x < b) == (x * f < b * f)) by (nonlinear_arith)
        requires
            f > 0,
    ;
    assert((x == b) == (x * f == b * f)) by (nonlinear_arith)
        requires
            f > 0,
    ;
    if a >= 1 && k >= 64 {
        lemma2_to64();
        if k > 64 {
            lemma_pow2_strictly_increases(64, k as nat);
        }
        assert(a * two_to(k) >= two_to(k)) by (nonlinear_arith)
            requires
                a >= 1,
                two_to(k) > 0,
        ;
    }
}

/// The order of two plain 128-bit values.
fn order_wide(x: u128, y: u128) -> (r: Ordering)
    ensures
        x < y ==> r == Ordering::Less,
        x == y ==> r == Ordering::Equal,
        x > y ==> r == Ordering::Greater,
{
    if x < y {
        Ordering::Less
    } else if x == y {
        Ordering::Equal
    } else {
        Ordering::Greater
    }
}

/// The reverse of an ordering.
fn opposite(o: Ordering) -> (r: Ordering)
    ensures
        r == opposite_of(o),
{
    match o {
        Ordering::Less => Ordering::Greater,
        Ordering::Equal => Ordering::Equal,
        Ordering::Greater => Ordering::Less,
    }
}

/// Orders `a * 2^ea` against `b * 2^eb` without losing a bit.
fn order_magnitudes(a: u64, ea: u32, b: u64, eb: u32) -> (r: Ordering)
    ensures
        r == order_of(a * two_to(ea), b * two_to(eb)),
{
    if ea >= eb {
        let k = ea - eb;
        proof {
            lemma_align(a, ea, b, eb);
        }
        if a == 0 {
            if b == 0 {
                Ordering::Equal
            } else {
                Ordering::Less
            }
        } else if k >= 64 {
            Ordering::Greater
        } else {
            order_wide(scale_up(a, k), widen(b))
        }
    } else {
        let k = eb - ea;
        proof {
            lemma_align(b, eb, a, ea);
        }
        if b == 0 {
            if a == 0 {
                Ordering::Equal
            } else {
                Ordering::Greater
            }
        } else if k >= 64 {
            Ordering::Less
        } else {
            order_wide(widen(a), scale_up(b, k))
        }
    }
}

/// An integer in the scale of [`INumber::scaled`].
pub open spec fn int_scaled(v: int) -> int {
    v * scale()
}

/// Scaling is strictly monotonic, so it can be undone.
pub proof fn lemma_int_scaled_monotonic(x: int, y: int)
    ensures
        (x < y) == (int_scaled(x) < int_scaled(y)),
        (x == y) == (int_scaled(x) == int_scaled(y)),
{
    lemma_pow2_pos(POINT as nat);
    let f = scale();
    assert((x < y) == (x * f < y * f)) by (nonlinear_arith)
        requires
            f > 0,
    ;
    assert((x == y) == (x * f == y * f)) by (nonlinear_arith)
        requires
            f > 0,
    ;
}

/// A scaled integer is its scaled magnitude with its sign.
proof fn lemma_int_scaled_sign(v: int)
    ensures
        int_scaled(v) == signed_mag(
            v < 0,
            (if v < 0 {
                -v
            } else {
                v
            }) * two_to(POINT),
        ),
{
    assert((-v) * scale() == -(v * scale())) by (nonlinear_arith);
}

/// Splits a finite double into sign, significand and binary exponent.
fn decode(bits: u64) -> (r: (bool, u64, u32))
    requires
        float_finite(bits),
    ensures
        r.0 == float_negative(bits),
        r.1 == float_mant(bits),
        r.2 == float_shift(bits),
        r.1 < 2 * EXP_UNIT,
        r.2 <= 2045,
        float_scaled(bits) == signed_mag(r.0, r.1 * two_to(r.2)),
{
    let exp = (bits / EXP_UNIT) % 2048;
    let frac = bits % EXP_UNIT;
    if exp == 0 {
        (bits >= SIGN_UNIT, frac, 0)
    } else {
        (bits >= SIGN_UNIT, frac + EXP_UNIT, (exp - 1) as u32)
    }
}

proof fn lemma_whole_above(m: u64, sh: u32)
    requires
        sh >= POINT,
    ensures
        m * two_to(sh) == int_scaled(m * two_to((sh - POINT) as u32)),
        m >= 1 && sh - POINT >= 64 ==> m * two_to((sh - POINT) as u32) > u64::MAX,
{
    let k = (sh - POINT) as u32;
    lemma_two_to_split(sh, POINT);
    lemma_mul_is_associative(m as int, two_to(k), two_to(POINT));
    if m >= 1 && k >= 64 {
        lemma2_to64();
        if k > 64 {
            lemma_pow2_strictly_increases(64, k as nat);
        }
        assert(m * two_to(k) >= two_to(k)) by (nonlinear_arith)
            requires
                m >= 1,
                two_to(k) > 0,
        ;
    }
}

proof fn lemma_whole_below(m: u64, sh: u32, q: int)
    requires
        sh < POINT,
    ensures
        (m * two_to(sh) == int_scaled(q)) == (m == q * two_to((POINT - sh) as u32)),
        m >= 1 && POINT - sh >= 64 ==> m != q * two_to((POINT - sh) as u32),
{
    let r = (POINT - sh) as u32;
    let f = two_to(sh);
    lemma_two_to_split(POINT, sh);
    lemma_mul_is_associative(q, two_to(r), f);
    let x = q * two_to(r);
    assert(int_scaled(q) == x * f);
    assert((m == x) == (m * f == x * f)) by (nonlinear_arith)
        requires
            f > 0,
    ;
    if m >= 1 && r >= 64 {
        lemma2_to64();
        if r > 64 {
            lemma_pow2_strictly_increases(64, r as nat);
        }
        assert(q >= 1 ==> q * two_to(r) >= two_to(r)) by (nonlinear_arith)
            requires
                two_to(r) > 0,
        ;
        assert(q <= 0 ==> q * two_to(r) <= 0) by (nonlinear_arith)
            requires
                two_to(r) > 0,
        ;
    }
}

/// The whole number that `m * 2^sh / 2^1074` is, where it is one that 64 bits hold.
fn whole(m: u64, sh: u32) -> (r: Option<u64>)
    ensures
        match r {
            Some(q) => m * two_to(sh) == int_scaled(q as int),
            None => forall|q: int| 0 <= q <= u64::MAX ==> m * two_to(sh) != #[trigger] int_scaled(q),
        },
{
    if m == 0 {
        assert(m * two_to(sh) == 0);
        assert(int_scaled(0) == 0);
        return Some(0);
    }
    if sh >= POINT {
        let k = sh - POINT;
        proof {
            lemma_whole_above(m, sh);
            assert forall|q: int| m * two_to(k) > u64::MAX && 0 <= q <= u64::MAX implies m * two_to(sh)
                != #[trigger] int_scaled(q) by {
                lemma_int_scaled_monotonic(q, m * two_to(k));
            }
        }
        if k >= 64 {
            return None;
        }
        let x = scale_up(m, k);
        if x <= u64::MAX as u128 {
            Some(x as u64)
        } else {
            None
        }
    } else {
        let r = POINT - sh;
        if r >= 64 {
            proof {
                assert forall|q: int| 0 <= q <= u64::MAX implies m * two_to(sh)
                    != #[trigger] int_scaled(q) by {
                    lemma_whole_below(m, sh, q);
                }
            }
            return None;
        }
        let d = scale_up(1, r);
        let wide = widen(m);
        proof {
            lemma_pow2_pos(r as nat);
        }
        if wide % d == 0 {
            let q = wide / d;
            proof {
                assert(wide == q * d + wide % d) by (nonlinear_arith)
                    requires
                        d > 0,
                        q == wide / d,
                ;
                assert(q <= wide) by (nonlinear_arith)
                    requires
                        wide == q * d,
                        d >= 1,
                        q >= 0,
                ;
                lemma_whole_below(m, sh, q as int);
            }
            Some(q as u64)
        } else {
            proof {
                assert forall|q: int| 0 <= q <= u64::MAX implies m * two_to(sh)
                    != #[trigger] int_scaled(q) by {
                    lemma_whole_below(m, sh, q);
                    if m == q * two_to(r) {
                        lemma_fundamental_div_mod_converse(m as int, d as int, q, 0);
                    }
                }
            }
            None
        }
    }
}

/// The number of leading zero bits of a positive number says between which two powers of
/// two the number lies.
proof fn lemma_leading_zeros(x: u64)
    requires
        x > 0,
    ensures
        0 <= vstd::std_specs::bits::u64_leading_zeros(x) <= 63,
        pow2((63 - vstd::std_specs::bits::u64_leading_zeros(x)) as nat) <= x,
        x < pow2((64 - vstd::std_specs::bits::u64_leading_zeros(x)) as nat),
    decreases x,
{
    reveal(vstd::std_specs::bits::u64_leading_zeros);
    lemma2_to64();
    lemma2_to64_rest();
    let half = x / 2;
    if half == 0 {
        assert(x == 1);
        assert(vstd::std_specs::bits::u64_leading_zeros(0) == 64);
    } else {
        lemma_leading_zeros(half);
        let lh = vstd::std_specs::bits::u64_leading_zeros(half);
        if lh <= 0 {
            if lh < 0 {
                lemma_pow2_strictly_increases(63, (63 - lh) as nat);
            }
        }
        lemma_pow2_unfold((64 - lh) as nat);
        lemma_pow2_unfold((65 - lh) as nat);
    }
}

/// A number is a multiple of a power of two, if it is one of a higher power of two.
proof fn lemma_multiple_of_lower_power(x: int, hi: nat, lo: nat)
    requires
        lo <= hi,
        x % (pow2(hi) as int) == 0,
    ensures
        x % (pow2(lo) as int) == 0,
{
    lemma_pow2_adds((hi - lo) as nat, lo);
    lemma_pow2_pos(hi);
    lemma_pow2_pos(lo);
    lemma_pow2_pos((hi - lo) as nat);
    let q = x / (pow2(hi) as int);
    assert(x == q * pow2(hi)) by (nonlinear_arith)
        requires
            q == x / (pow2(hi) as int),
            x % (pow2(hi) as int) == 0,
            pow2(hi) > 0,
    ;
    assert(q * pow2(hi) == (q * pow2((hi - lo) as nat)) * pow2(lo)) by (nonlinear_arith)
        requires
            pow2(hi) == pow2((hi - lo) as nat) * pow2(lo),
    ;
    lemma_fundamental_div_mod_converse(x, pow2(lo) as int, q * pow2((hi - lo) as nat), 0);
}

/// A number whose low `j` bits are zero is a multiple of 2^j.
proof fn lemma_low_bits_zero(x: u64, j: u64)
    requires
        j <= 63,
        forall|i: u64| 0 <= i < j ==> #[trigger] (x >> i) & 1u64 == 0u64,
    ensures
        x % (pow2(j as nat) as u64) == 0,
        pow2(j as nat) <= u64::MAX,
    decreases j,
{
    lemma2_to64();
    lemma2_to64_rest();
    if j > 0 {
        let i = (j - 1) as u64;
        lemma_low_bits_zero(x, i);
        lemma_pow2_strictly_increases(i as nat, 64);
        lemma_pow2_strictly_increases(j as nat, 64);
        lemma_pow2_unfold(j as nat);
        lemma_pow2_pos(i as nat);
        vstd::bits::lemma_u64_shr_is_div(x, i);
        let q = x >> i;
        assert((x >> i) & 1u64 == 0u64);
        assert(q & 1u64 == 0u64 ==> q % 2 == 0) by (bit_vector);
        let p = pow2(i as nat) as int;
        assert(x == q * p) by (nonlinear_arith)
            requires
                q == x as int / p,
                x as int % p == 0,
                p > 0,
        ;
        let h = q / 2;
        assert(q * p == h * (2 * p)) by (nonlinear_arith)
            requires
                q == 2 * h,
        ;
        lemma_fundamental_div_mod_converse(x as int, 2 * p, h as int, 0);
    }
}

/// The number of trailing zero bits of a positive number says which power of two divides
/// it, with an odd quotient.
proof fn lemma_trailing_zeros(x: u64)
    requires
        x > 0,
    ensures
        0 <= vstd::std_specs::bits::u64_trailing_zeros(x) <= 63,
        pow2(vstd::std_specs::bits::u64_trailing_zeros(x) as nat) <= u64::MAX,
        x as int % (pow2(vstd::std_specs::bits::u64_trailing_zeros(x) as nat) as int) == 0,
        (x as int / (pow2(vstd::std_specs::bits::u64_trailing_zeros(x) as nat) as int)) % 2 == 1,
{
    vstd::std_specs::bits::axiom_u64_trailing_zeros(x);
    let tz = vstd::std_specs::bits::u64_trailing_zeros(x);
    lemma_low_bits_zero(x, tz as u64);
    vstd::bits::lemma_u64_shr_is_div(x, tz as u64);
    let q = x >> (tz as u64);
    assert(q & 1u64 == 1u64 ==> q % 2 == 1) by (bit_vector);
}

/// The magnitude of a signed integer.
fn magnitude(v: i64) -> (r: u64)
    ensures
        r == if v < 0 {
            -v
        } else {
            v as int
        },
{
    if v >= 0 {
        v as u64
    } else if v == i64::MIN {
        SIGN_UNIT
    } else {
        (-v) as u64
    }
}

/// Whether the significant bits of a number span at most `bits`: the number is one of
/// fewer than `bits` bits, times a power of two.
pub open spec fn spans_at_most(x: u64, bits: nat) -> bool {
    exists|m: nat, k: nat| m < pow2(bits) && x == #[trigger] (m * pow2(k))
}

/// A number whose leading and trailing zero bits leave at most `bits` between them
/// spans at most `bits`, and no other does.
proof fn lemma_span(x: u64, bits: nat)
    requires
        1 <= bits <= 64,
    ensures
        spans_at_most(x, bits) == (x == 0 || vstd::std_specs::bits::u64_leading_zeros(x)
            + vstd::std_specs::bits::u64_trailing_zeros(x) >= 64 - bits),
{
    lemma_pow2_pos(bits);
    if x == 0 {
        lemma_pow2_pos(0);
        assert(x == 0nat * pow2(0));
    } else {
        lemma_leading_zeros(x);
        lemma_trailing_zeros(x);
        let lz = vstd::std_specs::bits::u64_leading_zeros(x);
        let tz = vstd::std_specs::bits::u64_trailing_zeros(x) as nat;
        let o = (x as int / (pow2(tz) as int)) as nat;
        lemma_pow2_pos(tz);
        assert(x == o * pow2(tz)) by (nonlinear_arith)
            requires
                o == x as int / (pow2(tz) as int),
                x as int % (pow2(tz) as int) == 0,
                pow2(tz) > 0,
        ;
        if lz + tz >= 64 - bits {
            // the odd part is below 2^(64 - lz - tz)
            let w = (64 - lz - tz) as nat;
            lemma_pow2_adds(w, tz);
            assert(o < pow2(w)) by (nonlinear_arith)
                requires
                    o * pow2(tz) < pow2(w) * pow2(tz),
                    pow2(tz) > 0,
            ;
            if w < bits {
                lemma_pow2_strictly_increases(w, bits);
            }
        }
        if spans_at_most(x, bits) {
            let (m, k) = choose|m: nat, k: nat| m < pow2(bits) && x == #[trigger] (m * pow2(k));
            lemma_pow2_pos(k);
            // the odd part is at most m
            if k > tz {
                lemma_pow2_adds((k - tz) as nat, tz);
                lemma_pow2_unfold((k - tz) as nat);
                let rest = pow2((k - tz - 1) as nat);
                assert(o == (m * rest) * 2) by (nonlinear_arith)
                    requires
                        o * pow2(tz) == m * ((2 * rest) * pow2(tz)),
                        pow2(tz) > 0,
                ;
            } else {
                lemma_pow2_adds((tz - k) as nat, k);
                lemma_pow2_pos((tz - k) as nat);
                let f = pow2((tz - k) as nat);
                assert(m == o * f) by (nonlinear_arith)
                    requires
                        m * pow2(k) == o * (f * pow2(k)),
                        pow2(k) > 0,
                ;
                assert(o <= m) by (nonlinear_arith)
                    requires
                        m == o * f,
                        f >= 1,
                        o >= 0,
                ;
            }
            // so the number is below 2^(bits + tz), and at least 2^(63 - lz)
            lemma_pow2_adds(bits, tz);
            assert(x < pow2(bits + tz)) by (nonlinear_arith)
                requires
                    x == o * pow2(tz),
                    o < pow2(bits),
                    pow2(tz) > 0,
                    pow2(bits + tz) == pow2(bits) * pow2(tz),
            ;
            if 63 - lz >= bits + tz {
                if 63 - lz > bits + tz {
                    lemma_pow2_strictly_increases(bits + tz, (63 - lz) as nat);
                }
            }
        }
    }
}

/// Whether an unsigned integer is exactly a double: its significant bits span at most 53.
pub fn can_represent_as_f64(x: u64) -> (r: bool)
    ensures
        r == spans_at_most(x, 53),
{
    proof {
        vstd::std_specs::bits::axiom_u64_leading_zeros(x);
        vstd::std_specs::bits::axiom_u64_trailing_zeros(x);
        lemma_span(x, 53);
    }
    x.leading_zeros() + x.trailing_zeros() >= 11
}

/// Whether an unsigned integer is exactly a single-precision float: its significant
/// bits span at most 24.
pub fn can_represent_as_f32(x: u64) -> (r: bool)
    ensures
        r == spans_at_most(x, 24),
{
    proof {
        vstd::std_specs::bits::axiom_u64_leading_zeros(x);
        vstd::std_specs::bits::axiom_u64_trailing_zeros(x);
        lemma_span(x, 24);
    }
    x.leading_zeros() + x.trailing_zeros() >= 40
}

/// A magnitude that a finite double has, as a whole number, spans at most 53 bits.
proof fn lemma_double_spans(x: u64, bits: u64)
    requires
        float_finite(bits),
        float_mant(bits) * pow2(float_shift(bits) as nat) == int_scaled(x as int),
    ensures
        spans_at_most(x, 53),
{
    let m = float_mant(bits) as nat;
    let e = float_shift(bits) as nat;
    lemma2_to64();
    lemma2_to64_rest();
    if e >= 1074 {
        let k = (e - 1074) as nat;
        lemma_pow2_adds(k, 1074);
        lemma_pow2_pos(1074);
        assert(x == m * pow2(k)) by (nonlinear_arith)
            requires
                m * (pow2(k) * pow2(1074)) == x * pow2(1074),
                pow2(1074) > 0,
        ;
    } else {
        let k = (1074 - e) as nat;
        lemma_pow2_adds(k, e);
        lemma_pow2_pos(e);
        lemma_pow2_pos(k);
        assert(m == x * pow2(k)) by (nonlinear_arith)
            requires
                m * pow2(e) == x * (pow2(k) * pow2(e)),
                pow2(e) > 0,
        ;
        assert(x <= m) by (nonlinear_arith)
            requires
                m == x * pow2(k),
                pow2(k) >= 1,
        ;
        assert(x == (x as nat) * pow2(0));
    }
}

/// The bit pattern of a double is that of its fields: the exponent, then the fraction.
proof fn lemma_float_fields(exp: u64, frac: u64, negative: bool)
    requires
        exp < 2048,
        frac < EXP_UNIT,
    ensures
        ({
            let bits = (exp * EXP_UNIT + frac + if negative {
                SIGN_UNIT as int
            } else {
                0
            }) as u64;
            &&& bits == exp * EXP_UNIT + frac + if negative {
                SIGN_UNIT as int
            } else {
                0
            }
            &&& float_exp(bits) == exp
            &&& float_frac(bits) == frac
            &&& float_negative(bits) == negative
        }),
{
    let sign: int = if negative {
        2048
    } else {
        0
    };
    let bits = exp * EXP_UNIT + frac + sign * EXP_UNIT;
    lemma_fundamental_div_mod_converse(bits, EXP_UNIT as int, exp + sign, frac as int);
    lemma_fundamental_div_mod_converse(exp + sign, 2048, sign / 2048, exp as int);
}

/// The bits of the double that a magnitude of at most 53 significant bits is exactly.
fn magnitude_to_bits(x: u64) -> (r: u64)
    requires
        spans_at_most(x, 53),
    ensures
        float_finite(r),
        !float_negative(r),
        r < SIGN_UNIT,
        float_scaled(r) == int_scaled(x as int),
        x == 0 ==> r == 0,
{
    if x == 0 {
        proof {
            lemma_float_fields(0, 0, false);
            assert(int_scaled(0) == 0);
            assert(float_scaled(0) == 0) by {
                assert(float_mant(0) == 0);
            }
        }
        return 0;
    }
    proof {
        lemma_leading_zeros(x);
        lemma_trailing_zeros(x);
        lemma_span(x, 53);
        lemma2_to64();
        lemma2_to64_rest();
    }
    let n: u32 = 64 - x.leading_zeros();
    let ghost tz = vstd::std_specs::bits::u64_trailing_zeros(x) as nat;
    let m: u64 = if n <= 53 {
        let k = 53 - n;
        proof {
            lemma_pow2_adds(n as nat, k as nat);
            lemma_pow2_adds((n - 1) as nat, k as nat);
            lemma_pow2_pos(k as nat);
            assert(x * pow2(k as nat) < pow2(n as nat) * pow2(k as nat)) by (nonlinear_arith)
                requires
                    x < pow2(n as nat),
                    pow2(k as nat) > 0,
            ;
            assert(x * pow2(k as nat) >= pow2((n - 1) as nat) * pow2(k as nat))
                by (nonlinear_arith)
                requires
                    x >= pow2((n - 1) as nat),
                    pow2(k as nat) > 0,
            ;
            // the value in the scale of doubles
            lemma_pow2_adds(k as nat, (1021 + n) as nat);
            assert((x * pow2(k as nat)) * pow2((1021 + n) as nat) == x * pow2(1074))
                by (nonlinear_arith)
                requires
                    pow2(1074) == pow2(k as nat) * pow2((1021 + n) as nat),
            ;
        }
        scale_up(x, k) as u64
    } else {
        let k = n - 53;
        let d = scale_up(1, k) as u64;
        proof {
            lemma_pow2_strictly_increases(k as nat, 64);
            lemma_pow2_pos(k as nat);
            lemma_multiple_of_lower_power(x as int, tz, k as nat);
            lemma_pow2_adds(53, k as nat);
            lemma_pow2_adds(52, k as nat);
            let q = x / d;
            assert(x == q * d) by (nonlinear_arith)
                requires
                    q == x / d,
                    x as int % (d as int) == 0,
                    d > 0,
            ;
            assert(q < pow2(53)) by (nonlinear_arith)
                requires
                    q * d < pow2(53) * d,
                    d > 0,
            ;
            assert(q >= pow2(52)) by (nonlinear_arith)
                requires
                    q * d >= pow2(52) * d,
                    d > 0,
            ;
            lemma_pow2_adds(k as nat, 1074);
            assert(q * pow2((1021 + n) as nat) == x * pow2(1074)) by (nonlinear_arith)
                requires
                    x == q * d,
                    pow2((1021 + n) as nat) == d * pow2(1074),
            ;
        }
        x / d
    };
    let exp: u64 = 1022 + n as u64;
    proof {
        lemma_float_fields(exp, (m - EXP_UNIT) as u64, false);
    }
    exp * EXP_UNIT + (m - EXP_UNIT)
}

/// The bits of the double that a magnitude is exactly, with the sign of the double.
fn signed_bits(negative: bool, x: u64) -> (r: u64)
    requires
        spans_at_most(x, 53),
    ensures
        float_finite(r),
        float_scaled(r) == signed_mag(negative && x != 0, int_scaled(x as int)),
        x == 0 ==> r == 0,
{
    let bits = magnitude_to_bits(x);
    if negative && x != 0 {
        proof {
            let exp = bits / EXP_UNIT;
            let frac = bits % EXP_UNIT;
            assert(exp < 2048);
            assert(bits == exp * EXP_UNIT + frac);
            assert(float_exp(bits) == exp);
            assert(float_frac(bits) == frac);
            lemma_float_fields(exp, frac, true);
            let flipped = (bits + SIGN_UNIT) as u64;
            assert(float_exp(flipped) == exp);
            assert(float_frac(flipped) == frac);
            assert(float_negative(flipped));
            assert(float_mant(flipped) == float_mant(bits));
            assert(float_shift(flipped) == float_shift(bits));
            assert(float_scaled(flipped) == -float_scaled(bits));
        }
        bits + SIGN_UNIT
    } else {
        bits
    }
}

/// An unsigned integer in the scale of [`INumber::scaled`].
pub open spec fn u64_scaled(v: u64) -> int {
    int_scaled(v as int)
}

/// A signed integer in the scale of [`INumber::scaled`].
pub open spec fn i64_scaled(v: i64) -> int {
    int_scaled(v as int)
}

proof fn lemma_u64_parts(a: u64)
    ensures
        u64_scaled(a) == signed_mag(false, a * two_to(POINT)),
{
}

proof fn lemma_i64_parts(a: i64)
    ensures
        i64_scaled(a) == signed_mag(
            a < 0,
            (if a < 0 {
                -a
            } else {
                a as int
            }) * two_to(POINT),
        ),
{
    lemma_int_scaled_sign(a as int);
}

proof fn lemma_parts_nonnegative(a: u64, ea: u32)
    ensures
        a * two_to(ea) >= 0,
        a == 0 ==> a * two_to(ea) == 0,
        a > 0 ==> a * two_to(ea) > 0,
{
    lemma_pow2_pos(ea as nat);
    assert(a > 0 ==> a * two_to(ea) > 0) by (nonlinear_arith)
        requires
            two_to(ea) > 0,
    ;
}

/// The order of two signed 64-bit integers.
fn order_i64(x: i64, y: i64) -> (r: Ordering)
    ensures
        r == order_of(i64_scaled(x), i64_scaled(y)),
{
    proof {
        lemma_i64_order(x, y);
    }
    if x < y {
        Ordering::Less
    } else if x == y {
        Ordering::Equal
    } else {
        Ordering::Greater
    }
}

proof fn lemma_i64_order(x: i64, y: i64)
    ensures
        (x < y) == (i64_scaled(x) < i64_scaled(y)),
        (x == y) == (i64_scaled(x) == i64_scaled(y)),
{
    lemma_int_scaled_monotonic(x as int, y as int);
}

proof fn lemma_u64_order(x: u64, y: u64)
    ensures
        (x < y) == (u64_scaled(x) < u64_scaled(y)),
        (x == y) == (u64_scaled(x) == u64_scaled(y)),
{
    lemma_int_scaled_monotonic(x as int, y as int);
}

/// The order of two unsigned 64-bit integers.
fn order_u64(x: u64, y: u64) -> (r: Ordering)
    ensures
        r == order_of(u64_scaled(x), u64_scaled(y)),
{
    proof {
        lemma_u64_order(x, y);
    }
    if x < y {
        Ordering::Less
    } else if x == y {
        Ordering::Equal
    } else {
        Ordering::Greater
    }
}

/// Orders two values given as sign, magnitude and binary exponent.
fn order_parts(na: bool, a: u64, ea: u32, nb: bool, b: u64, eb: u32) -> (r: Ordering)
    ensures
        r == order_of(signed_mag(na, a * two_to(ea)), signed_mag(nb, b * two_to(eb))),
{
    proof {
        lemma_parts_nonnegative(a, ea);
        lemma_parts_nonnegative(b, eb);
    }
    if a == 0 && b == 0 {
        Ordering::Equal
    } else if na != nb {
        if na {
            Ordering::Less
        } else {
            Ordering::Greater
        }
    } else if na {
        order_magnitudes(b, eb, a, ea)
    } else {
        order_magnitudes(a, ea, b, eb)
    }
}

/// Orders an unsigned integer against a finite double, given by its bits, exactly.
pub fn cmp_u64_to_f64(a: u64, b: u64) -> (r: Ordering)
    requires
        float_finite(b),
    ensures
        r == order_of(u64_scaled(a), float_scaled(b)),
{
    let (negative, m, sh) = decode(b);
    proof {
        lemma_u64_parts(a);
    }
    order_parts(false, a, POINT, negative, m, sh)
}

/// Orders a signed integer against a finite double, given by its bits, exactly.
pub fn cmp_i64_to_f64(a: i64, b: u64) -> (r: Ordering)
    requires
        float_finite(b),
    ensures
        r == order_of(i64_scaled(a), float_scaled(b)),
{
    let (negative, m, sh) = decode(b);
    proof {
        lemma_i64_parts(a);
    }
    order_parts(a < 0, magnitude(a), POINT, negative, m, sh)
}

/// No finite double is a whole number that spans more than 53 bits.
proof fn lemma_no_double(x: u64, negative: bool, bits: u64)
    requires
        !spans_at_most(x, 53),
        float_finite(bits),
    ensures
        float_scaled(bits) != signed_mag(negative, int_scaled(x as int)),
{
    let mag = float_mant(bits) * pow2(float_shift(bits) as nat);
    lemma_pow2_pos(float_shift(bits) as nat);
    lemma_pow2_pos(POINT as nat);
    assert(mag >= 0) by (nonlinear_arith)
        requires
            mag == float_mant(bits) * pow2(float_shift(bits) as nat),
            float_mant(bits) >= 0,
            pow2(float_shift(bits) as nat) > 0,
    ;
    assert(int_scaled(x as int) >= 0) by (nonlinear_arith)
        requires
            x >= 0,
            scale() > 0,
    ;
    if float_scaled(bits) == signed_mag(negative, int_scaled(x as int)) {
        assert(mag == int_scaled(x as int));
        lemma_double_spans(x, bits);
    }
}

/// A number below 2^53 spans at most 53 bits.
proof fn lemma_small_spans(x: u64)
    requires
        x < 0x20_0000_0000_0000,
    ensures
        spans_at_most(x, 53),
{
    lemma2_to64();
    lemma2_to64_rest();
    assert(x == (x as nat) * pow2(0));
}

/// Weight of the exponent field in the bit pattern of a single-precision float (2^23).
pub const SINGLE_EXP_UNIT: u32 = 0x0080_0000;

/// Weight of the sign bit in the bit pattern of a single-precision float (2^31).
pub const SINGLE_SIGN_UNIT: u32 = 0x8000_0000;

/// The power of two by which the least single-precision float is above the least double:
/// the one is 2^-149 and the other 2^-1074.
pub const SINGLE_POINT: u32 = 925;

/// Sign bit of the bit pattern of a single-precision float.
pub open spec fn single_negative(bits: u32) -> bool {
    bits >= SINGLE_SIGN_UNIT
}

/// Biased exponent field of the bit pattern of a single-precision float.
pub open spec fn single_exp(bits: u32) -> int {
    ((bits / SINGLE_EXP_UNIT) % 256) as int
}

/// Fraction field of the bit pattern of a single-precision float.
pub open spec fn single_frac(bits: u32) -> int {
    (bits % SINGLE_EXP_UNIT) as int
}

/// A bit pattern is finite when it is neither an infinity nor a NaN.
pub open spec fn single_finite(bits: u32) -> bool {
    single_exp(bits) != 255
}

/// Significand of a finite single-precision float, with the hidden bit of a normal
/// number made explicit.
pub open spec fn single_mant(bits: u32) -> int {
    if single_exp(bits) == 0 {
        single_frac(bits)
    } else {
        single_frac(bits) + SINGLE_EXP_UNIT
    }
}

/// Power of two by which the significand is multiplied to give the magnitude of the
/// float times 2^149.
pub open spec fn single_shift(bits: u32) -> int {
    if single_exp(bits) == 0 {
        0
    } else {
        single_exp(bits) - 1
    }
}

/// The value of a finite single-precision float, multiplied by 2^1074.
pub open spec fn single_scaled(bits: u32) -> int {
    signed_mag(
        single_negative(bits),
        single_mant(bits) * pow2((single_shift(bits) + SINGLE_POINT) as nat),
    )
}

/// The bit pattern of a single-precision float is that of its fields.
proof fn lemma_single_fields(exp: u32, frac: u32, negative: bool)
    requires
        exp < 256,
        frac < SINGLE_EXP_UNIT,
    ensures
        ({
            let bits = (exp * SINGLE_EXP_UNIT + frac + if negative {
                SINGLE_SIGN_UNIT as int
            } else {
                0
            }) as u32;
            &&& bits == exp * SINGLE_EXP_UNIT + frac + if negative {
                SINGLE_SIGN_UNIT as int
            } else {
                0
            }
            &&& single_exp(bits) == exp
            &&& single_frac(bits) == frac
            &&& single_negative(bits) == negative
        }),
{
    let sign: int = if negative {
        256
    } else {
        0
    };
    let bits = exp * SINGLE_EXP_UNIT + frac + sign * SINGLE_EXP_UNIT;
    lemma_fundamental_div_mod_converse(bits, SINGLE_EXP_UNIT as int, exp + sign, frac as int);
    lemma_fundamental_div_mod_converse(exp + sign, 256, sign / 256, exp as int);
}

/// Whether an odd number of `b` bits times 2^e is a single-precision float: the number
/// has at most 24 bits, and the exponent is in the range of the floats.
pub open spec fn single_holds(b: int, e: int) -> bool {
    &&& b <= 24
    &&& e >= SINGLE_POINT
    &&& e - SINGLE_POINT - (24 - b) <= 253
}

/// An odd number times a power of two that is a finite single-precision float is one
/// that [`single_holds`] says to be one.
proof fn lemma_single_means_holds(o: u64, e: nat, b: nat, bits: u32)
    requires
        o % 2 == 1,
        1 <= b <= 64,
        pow2((b - 1) as nat) <= o < pow2(b),
        single_finite(bits),
        single_mant(bits) * pow2((single_shift(bits) + SINGLE_POINT) as nat) == o * pow2(e),
    ensures
        single_holds(b as int, e as int),
{
    let mant = single_mant(bits) as nat;
    let s = single_shift(bits) as nat;
    let se = (s + SINGLE_POINT) as nat;
    lemma2_to64();
    lemma_pow2_pos(e);
    lemma_pow2_pos(se);
    // the exponent of the float is at most that of the number, which is odd
    if se > e {
        let d = (se - e) as nat;
        lemma_pow2_adds(d, e);
        lemma_pow2_unfold(d);
        let rest = pow2((d - 1) as nat);
        assert(o == (mant * rest) * 2) by (nonlinear_arith)
            requires
                mant * ((2 * rest) * pow2(e)) == o * pow2(e),
                pow2(e) > 0,
        ;
    }
    let t = (e - se) as nat;
    lemma_pow2_adds(t, se);
    lemma_pow2_pos(t);
    assert(mant == o * pow2(t)) by (nonlinear_arith)
        requires
            mant * pow2(se) == o * (pow2(t) * pow2(se)),
            pow2(se) > 0,
    ;
    // so the significand has the bits of the number, and t more
    lemma_pow2_adds((b - 1) as nat, t);
    lemma_pow2_adds(b, t);
    assert(pow2((b - 1 + t) as nat) <= mant < pow2(b + t)) by (nonlinear_arith)
        requires
            mant == o * pow2(t),
            pow2((b - 1) as nat) <= o < pow2(b),
            pow2(t) > 0,
            pow2((b - 1 + t) as nat) == pow2((b - 1) as nat) * pow2(t),
            pow2(b + t) == pow2(b) * pow2(t),
    ;
    assert(mant < 0x100_0000);
    if b + t > 24 {
        if b - 1 + t > 24 {
            lemma_pow2_strictly_increases(24, (b - 1 + t) as nat);
        }
    }
    if s >= 1 {
        assert(mant >= 0x80_0000);
        if b + t < 24 {
            lemma_pow2_strictly_increases(b + t, 24);
            lemma_pow2_unfold(24);
        }
    }
}

/// The bits of the single-precision float that `m * 2^sh / 2^1074` is, where it is one.
fn single_bits(negative: bool, m: u64, sh: u32) -> (r: Option<u32>)
    requires
        sh <= 2045,
    ensures
        match r {
            Some(bits) => single_finite(bits) && single_scaled(bits) == signed_mag(
                negative,
                m * two_to(sh),
            ),
            None => forall|bits: u32|
                single_finite(bits) ==> #[trigger] single_scaled(bits) != signed_mag(
                    negative,
                    m * two_to(sh),
                ),
        },
        m == 0 ==> r == Some(
            if negative {
                SINGLE_SIGN_UNIT
            } else {
                0u32
            },
        ),
{
    proof {
        lemma2_to64();
        lemma2_to64_rest();
    }
    let sign: u32 = if negative {
        SINGLE_SIGN_UNIT
    } else {
        0
    };
    if m == 0 {
        proof {
            lemma_single_fields(0, 0, negative);
            assert(m * two_to(sh) == 0);
        }
        return Some(sign);
    }
    proof {
        lemma_trailing_zeros(m);
    }
    let tz = m.trailing_zeros();
    let d = scale_up(1, tz) as u64;
    let o = m / d;
    proof {
        assert(m == o * d) by (nonlinear_arith)
            requires
                o == m / d,
                m as int % (d as int) == 0,
                d > 0,
        ;
        lemma_leading_zeros(o);
        lemma_pow2_adds(tz as nat, sh as nat);
        assert(m * two_to(sh) == o * pow2((tz + sh) as nat)) by (nonlinear_arith)
            requires
                m == o * d,
                pow2((tz + sh) as nat) == d * two_to(sh),
        ;
        lemma_pow2_pos((tz + sh) as nat);
        assert(o * pow2((tz + sh) as nat) > 0) by (nonlinear_arith)
            requires
                o > 0,
                pow2((tz + sh) as nat) > 0,
        ;
    }
    let b: u32 = 64 - o.leading_zeros();
    let e: u32 = sh + tz;
    if b > 24 || e < SINGLE_POINT || e - SINGLE_POINT > 253 + (24 - b) {
        proof {
            assert forall|bits: u32| single_finite(bits) implies #[trigger] single_scaled(bits)
                != signed_mag(negative, m * two_to(sh)) by {
                let mag = single_mant(bits) * pow2((single_shift(bits) + SINGLE_POINT) as nat);
                lemma_pow2_pos((single_shift(bits) + SINGLE_POINT) as nat);
                assert(mag >= 0) by (nonlinear_arith)
                    requires
                        mag == single_mant(bits) * pow2(
                            (single_shift(bits) + SINGLE_POINT) as nat,
                        ),
                        single_mant(bits) >= 0,
                        pow2((single_shift(bits) + SINGLE_POINT) as nat) > 0,
                ;
                if single_scaled(bits) == signed_mag(negative, m * two_to(sh)) {
                    lemma_single_means_holds(o, e as nat, b as nat, bits);
                }
            }
        }
        return None;
    }
    let t = e - SINGLE_POINT;
    let room = 24 - b;
    let s: u32 = if t > room {
        t - room
    } else {
        0
    };
    let k = t - s;
    proof {
        lemma_pow2_adds(b as nat, k as nat);
        lemma_pow2_adds((b - 1) as nat, k as nat);
        lemma_pow2_pos(k as nat);
        assert(pow2((b - 1 + k) as nat) <= o * pow2(k as nat) < pow2((b + k) as nat))
            by (nonlinear_arith)
            requires
                pow2((b - 1) as nat) <= o < pow2(b as nat),
                pow2(k as nat) > 0,
                pow2((b - 1 + k) as nat) == pow2((b - 1) as nat) * pow2(k as nat),
                pow2((b + k) as nat) == pow2(b as nat) * pow2(k as nat),
        ;
        if b + k < 24 {
            lemma_pow2_strictly_increases((b + k) as nat, 24);
        }
        // the value in the scale of doubles
        lemma_pow2_adds(k as nat, (s + SINGLE_POINT) as nat);
        assert((o * pow2(k as nat)) * pow2((s + SINGLE_POINT) as nat) == o * pow2(e as nat))
            by (nonlinear_arith)
            requires
                pow2(e as nat) == pow2(k as nat) * pow2((s + SINGLE_POINT) as nat),
        ;
    }
    let mant = scale_up(o, k) as u32;
    proof {
        if s >= 1 {
            lemma_single_fields((s + 1) as u32, (mant - SINGLE_EXP_UNIT) as u32, negative);
        } else if mant >= SINGLE_EXP_UNIT {
            lemma_single_fields(1, (mant - SINGLE_EXP_UNIT) as u32, negative);
        } else {
            lemma_single_fields(0, mant, negative);
        }
    }
    Some(sign + s * SINGLE_EXP_UNIT + mant)
}

/// The bit pattern of a double is made of its sign, its exponent and its fraction.
proof fn lemma_float_bits_split(bits: u64)
    ensures
        bits == float_exp(bits) * EXP_UNIT + float_frac(bits) + if float_negative(bits) {
            SIGN_UNIT as int
        } else {
            0
        },
        0 <= float_exp(bits) < 2048,
        0 <= float_frac(bits) < EXP_UNIT,
{
    let q = bits / EXP_UNIT;
    assert(bits == q * EXP_UNIT + bits % EXP_UNIT);
    assert(q < 4096);
}

/// Two finite doubles of the same value, which is not zero, have the same bits.
pub proof fn lemma_float_scaled_injective(a: u64, b: u64)
    requires
        float_finite(a),
        float_finite(b),
        float_scaled(a) == float_scaled(b),
        float_scaled(a) != 0,
    ensures
        a == b,
{
    lemma2_to64();
    lemma2_to64_rest();
    lemma_float_bits_split(a);
    lemma_float_bits_split(b);
    let ma = float_mant(a);
    let mb = float_mant(b);
    let ea = float_shift(a) as nat;
    let eb = float_shift(b) as nat;
    lemma_pow2_pos(ea);
    lemma_pow2_pos(eb);
    assert(ma * pow2(ea) >= 0 && mb * pow2(eb) >= 0) by (nonlinear_arith)
        requires
            ma >= 0,
            mb >= 0,
            pow2(ea) > 0,
            pow2(eb) > 0,
    ;
    assert(ma * pow2(ea) == mb * pow2(eb));
    assert(float_negative(a) == float_negative(b));
    if ea > eb {
        lemma_float_exponent_decides(ma, ea, mb, eb);
    } else if eb > ea {
        lemma_float_exponent_decides(mb, eb, ma, ea);
    } else {
        assert(ma == mb) by (nonlinear_arith)
            requires
                ma * pow2(ea) == mb * pow2(ea),
                pow2(ea) > 0,
        ;
    }
}

/// A normal significand at a higher exponent is more than any significand at a lower
/// one.
proof fn lemma_float_exponent_decides(ma: int, ea: nat, mb: int, eb: nat)
    requires
        ea > eb,
        EXP_UNIT <= ma,
        0 <= mb < 2 * EXP_UNIT,
    ensures
        ma * pow2(ea) != mb * pow2(eb),
{
    let d = (ea - eb) as nat;
    lemma_pow2_adds(d, eb);
    lemma_pow2_pos(eb);
    lemma_pow2_unfold(d);
    lemma_pow2_pos((d - 1) as nat);
    assert(ma * pow2(ea) > mb * pow2(eb)) by (nonlinear_arith)
        requires
            pow2(ea) == pow2(d) * pow2(eb),
            pow2(d) >= 2,
            pow2(eb) > 0,
            ma >= EXP_UNIT,
            0 <= mb < 2 * EXP_UNIT,
    ;
}

/// The bits of a signed integer, as an unsigned one.
fn i64_bits(v: i64) -> (r: u64)
    ensures
        r == if v < 0 {
            v + 0x1_0000_0000_0000_0000
        } else {
            v as int
        },
{
    assert(v >= 0 ==> (v as u64) == v) by (bit_vector);
    assert(v < 0 ==> (v as u64) == v + 0x1_0000_0000_0000_0000) by (bit_vector);
    #[verifier::truncate]
    (v as u64)
}

/// The hash word of a number that is a signed integer is that of the integer.
proof fn lemma_i64_key(scaled: int, v: i64, bits: u64)
    requires
        scaled == int_scaled(v as int),
    ensures
        INumber::spec_hash_key(scaled, bits) == if v < 0 {
            v + 0x1_0000_0000_0000_0000
        } else {
            v as int
        },
{
    let w = choose|w: int| i64::MIN <= w <= u64::MAX && scaled == #[trigger] int_scaled(w);
    lemma_int_scaled_monotonic(w, v as int);
}

/// The hash word of a number that is an unsigned integer is the integer.
proof fn lemma_u64_key(scaled: int, v: u64, bits: u64)
    requires
        scaled == int_scaled(v as int),
    ensures
        INumber::spec_hash_key(scaled, bits) == v,
{
    let w = choose|w: int| i64::MIN <= w <= u64::MAX && scaled == #[trigger] int_scaled(w);
    lemma_int_scaled_monotonic(w, v as int);
}

/// The hash word of a number that is no integer of 64 bits is the bits of its double.
proof fn lemma_float_key(scaled: int, bits: u64)
    requires
        forall|v: int| i64::MIN <= v <= i64::MAX ==> scaled != #[trigger] int_scaled(v),
        forall|v: int| 0 <= v <= u64::MAX ==> scaled != #[trigger] int_scaled(v),
    ensures
        INumber::spec_hash_key(scaled, bits) == bits,
{
}

/// The five encodings of a number, cheapest first.
#[derive(Copy, Clone, Debug, PartialEq, Eq, Structural)]
pub enum NumberType {
    /// A small integer of the static tier, which costs no allocation.
    Static,
    /// A 24-bit signed integer.
    I24,
    /// A 64-bit signed integer.
    I64,
    /// A 64-bit unsigned integer above `i64::MAX`.
    U64,
    /// A finite double.
    F64,
}

/// The stored form of a number: its encoding, the two short fields that hold a static or
/// a 24-bit value, and the 64-bit payload of the three wide encodings.
#[derive(Copy, Clone, Debug)]
pub struct Header {
    type_: NumberType,
    short: u8,
    static_: i16,
    wide: u64,
}

impl Header {
    /// The 24-bit value that the two short fields hold.
    pub closed spec fn i24(self) -> int {
        self.static_ * 256 + self.short
    }

    /// The value multiplied by 2^1074.
    pub closed spec fn scaled(self) -> int {
        match self.type_ {
            NumberType::Static => int_scaled(self.static_ as int),
            NumberType::I24 => int_scaled(self.i24()),
            NumberType::I64 => int_scaled(signed(self.wide)),
            NumberType::U64 => int_scaled(self.wide as int),
            NumberType::F64 => float_scaled(self.wide),
        }
    }

    /// Each value has one encoding: the cheapest that holds it, and no double is
    /// infinite or a NaN.
    pub closed spec fn wf(self) -> bool {
        match self.type_ {
            NumberType::Static => STATIC_LOWER <= self.static_ < STATIC_UPPER,
            NumberType::I24 => !(STATIC_LOWER <= self.i24() < STATIC_UPPER),
            NumberType::I64 => !(SHORT_LOWER <= signed(self.wide) < SHORT_UPPER),
            NumberType::U64 => self.wide > i64::MAX,
            NumberType::F64 => float_finite(self.wide),
        }
    }

    /// The 64-bit payload.
    pub closed spec fn payload(self) -> u64 {
        self.wide
    }

    /// Whether the encoding is that of a double.
    pub closed spec fn decimal(self) -> bool {
        self.type_ == NumberType::F64
    }

    /// The integer that an integer encoding holds.
    pub closed spec fn int_value(self) -> int {
        match self.type_ {
            NumberType::Static => self.static_ as int,
            NumberType::I24 => self.i24(),
            NumberType::I64 => signed(self.wide),
            _ => self.wide as int,
        }
    }

    /// Unpacks the 24-bit value from the two short fields.
    pub fn as_i24_unchecked(&self) -> (r: i32)
        ensures
            r == self.i24(),
            SHORT_LOWER <= r < SHORT_UPPER,
    {
        let hi = self.static_;
        let lo = self.short;
        assert((((hi as i32) << 8) | (lo as i32)) == hi * 256 + lo) by (bit_vector);
        ((hi as i32) << 8) | (lo as i32)
    }

    /// The payload read as a signed integer.
    fn as_i64_unchecked(&self) -> (r: i64)
        ensures
            r == signed(self.wide),
    {
        let w = self.wide;
        assert(w < 0x8000_0000_0000_0000 ==> (w as i64) == w) by (bit_vector);
        assert(w >= 0x8000_0000_0000_0000 ==> (w as i64) == w - 0x1_0000_0000_0000_0000)
            by (bit_vector);
        #[verifier::truncate]
        (w as i64)
    }

    /// The payload read as an unsigned integer.
    fn as_u64_unchecked(&self) -> (r: u64)
        ensures
            r == self.wide,
    {
        self.wide
    }

    /// The payload read as the bit pattern of a double.
    fn as_f64_unchecked(&self) -> (r: u64)
        ensures
            r == self.wide,
    {
        self.wide
    }

    /// Sign, magnitude and binary exponent of the value.
    fn parts(&self) -> (r: (bool, u64, u32))
        requires
            self.wf(),
        ensures
            self.scaled() == signed_mag(r.0, r.1 * two_to(r.2)),
            r.2 <= 2045,
            !self.decimal() ==> r.0 == (self.scaled() < 0),
    {
        proof {
            lemma_pow2_pos(POINT as nat);
            if !self.decimal() {
                lemma_int_scaled_monotonic(self.int_value(), 0);
                assert(int_scaled(0) == 0);
            }
        }
        match self.type_ {
            NumberType::Static => {
                let v = self.static_ as i64;
                proof {
                    lemma_int_scaled_sign(v as int);
                }
                (v < 0, magnitude(v), POINT)
            },
            NumberType::I24 => {
                let v = self.as_i24_unchecked() as i64;
                proof {
                    lemma_int_scaled_sign(v as int);
                }
                (v < 0, magnitude(v), POINT)
            },
            NumberType::I64 => {
                let v = self.as_i64_unchecked();
                proof {
                    lemma_int_scaled_sign(v as int);
                }
                (v < 0, magnitude(v), POINT)
            },
            NumberType::U64 => (false, self.wide, POINT),
            NumberType::F64 => decode(self.wide),
        }
    }

    /// The value as an `i64`, where it is one.
    pub fn to_i64(&self) -> (r: Option<i64>)
        requires
            self.wf(),
        ensures
            match r {
                Some(v) => self.scaled() == int_scaled(v as int),
                None => forall|v: int|
                    i64::MIN <= v <= i64::MAX ==> self.scaled() != #[trigger] int_scaled(v),
            },
    {
        match self.type_ {
            NumberType::Static => Some(self.static_ as i64),
            NumberType::I24 => Some(self.as_i24_unchecked() as i64),
            NumberType::I64 => Some(self.as_i64_unchecked()),
            NumberType::U64 => {
                let v = self.as_u64_unchecked();
                if v <= i64::MAX as u64 {
                    Some(v as i64)
                } else {
                    proof {
                        assert forall|x: int| i64::MIN <= x <= i64::MAX implies self.scaled()
                            != #[trigger] int_scaled(x) by {
                            lemma_int_scaled_monotonic(x, v as int);
                        }
                    }
                    None
                }
            },
            NumberType::F64 => {
                let (negative, m, sh) = decode(self.as_f64_unchecked());
                match whole(m, sh) {
                    Some(q) => {
                        proof {
                            assert(int_scaled(-(q as int)) == -int_scaled(q as int))
                                by (nonlinear_arith);
                            assert forall|x: int| i64::MIN <= x <= i64::MAX && x != signed_mag(
                                negative,
                                q as int,
                            ) implies self.scaled() != #[trigger] int_scaled(x) by {
                                lemma_int_scaled_monotonic(x, signed_mag(negative, q as int));
                            }
                        }
                        if q == 0 {
                            Some(0)
                        } else if !negative {
                            if q <= i64::MAX as u64 {
                                Some(q as i64)
                            } else {
                                None
                            }
                        } else if q < SIGN_UNIT {
                            Some(-(q as i64))
                        } else if q == SIGN_UNIT {
                            Some(i64::MIN)
                        } else {
                            None
                        }
                    },
                    None => {
                        proof {
                            assert forall|x: int| i64::MIN <= x <= i64::MAX implies self.scaled()
                                != #[trigger] int_scaled(x) by {
                                assert(int_scaled(-x) == -int_scaled(x)) by (nonlinear_arith);
                                if x >= 0 {
                                    assert(m * two_to(sh) != int_scaled(x));
                                } else {
                                    assert(m * two_to(sh) != int_scaled(-x));
                                }
                                assert(m * two_to(sh) >= 0) by (nonlinear_arith)
                                    requires
                                        m >= 0,
                                        two_to(sh) >= 0,
                                ;
                                lemma_int_scaled_monotonic(x, 0);
                                assert(int_scaled(0) == 0);
                            }
                        }
                        None
                    },
                }
            },
        }
    }

    /// The value as a `u64`, where it is one.
    pub fn to_u64(&self) -> (r: Option<u64>)
        requires
            self.wf(),
        ensures
            match r {
                Some(v) => self.scaled() == int_scaled(v as int),
                None => forall|v: int|
                    0 <= v <= u64::MAX ==> self.scaled() != #[trigger] int_scaled(v),
            },
    {
        match self.type_ {
            NumberType::Static => {
                if self.static_ >= 0 {
                    Some(self.static_ as u64)
                } else {
                    proof {
                        assert forall|x: int| 0 <= x <= u64::MAX implies self.scaled()
                            != #[trigger] int_scaled(x) by {
                            lemma_int_scaled_monotonic(x, self.static_ as int);
                        }
                    }
                    None
                }
            },
            NumberType::I24 => {
                let v = self.as_i24_unchecked();
                if v >= 0 {
                    Some(v as u64)
                } else {
                    proof {
                        assert forall|x: int| 0 <= x <= u64::MAX implies self.scaled()
                            != #[trigger] int_scaled(x) by {
                            lemma_int_scaled_monotonic(x, v as int);
                        }
                    }
                    None
                }
            },
            NumberType::I64 => {
                let v = self.as_i64_unchecked();
                if v >= 0 {
                    Some(v as u64)
                } else {
                    proof {
                        assert forall|x: int| 0 <= x <= u64::MAX implies self.scaled()
                            != #[trigger] int_scaled(x) by {
                            lemma_int_scaled_monotonic(x, v as int);
                        }
                    }
                    None
                }
            },
            NumberType::U64 => Some(self.as_u64_unchecked()),
            NumberType::F64 => {
                let (negative, m, sh) = decode(self.as_f64_unchecked());
                match whole(m, sh) {
                    Some(q) => {
                        if q == 0 || !negative {
                            Some(q)
                        } else {
                            proof {
                                assert(int_scaled(-(q as int)) == -int_scaled(q as int))
                                    by (nonlinear_arith);
                                assert forall|x: int| 0 <= x <= u64::MAX implies self.scaled()
                                    != #[trigger] int_scaled(x) by {
                                    lemma_int_scaled_monotonic(x, -(q as int));
                                }
                            }
                            None
                        }
                    },
                    None => {
                        proof {
                            assert forall|x: int| 0 <= x <= u64::MAX implies self.scaled()
                                != #[trigger] int_scaled(x) by {
                                assert(m * two_to(sh) != int_scaled(x));
                                assert(m * two_to(sh) >= 0) by (nonlinear_arith)
                                    requires
                                        m >= 0,
                                        two_to(sh) >= 0,
                                ;
                                lemma_int_scaled_monotonic(x, 0);
                                assert(int_scaled(0) == 0);
                            }
                        }
                        None
                    },
                }
            },
        }
    }

    /// The integer that one of the three signed encodings holds.
    fn small(&self) -> (r: i64)
        requires
            self.type_ == NumberType::Static || self.type_ == NumberType::I24 || self.type_
                == NumberType::I64,
        ensures
            r == self.int_value(),
            self.scaled() == i64_scaled(r),
    {
        match self.type_ {
            NumberType::Static => self.static_ as i64,
            NumberType::I24 => self.as_i24_unchecked() as i64,
            _ => self.as_i64_unchecked(),
        }
    }

    /// Orders two numbers by value, whatever their encodings.
    pub fn cmp(&self, other: &Header) -> (r: Ordering)
        requires
            self.wf(),
            other.wf(),
        ensures
            r == order_of(self.scaled(), other.scaled()),
    {
        match (self.type_, other.type_) {
            (NumberType::U64, NumberType::U64) => order_u64(
                self.as_u64_unchecked(),
                other.as_u64_unchecked(),
            ),
            (NumberType::F64, NumberType::F64) => {
                let (na, a, ea) = decode(self.as_f64_unchecked());
                let (nb, b, eb) = decode(other.as_f64_unchecked());
                order_parts(na, a, ea, nb, b, eb)
            },
            (NumberType::U64, NumberType::F64) => cmp_u64_to_f64(
                self.as_u64_unchecked(),
                other.as_f64_unchecked(),
            ),
            (NumberType::F64, NumberType::U64) => opposite(
                cmp_u64_to_f64(other.as_u64_unchecked(), self.as_f64_unchecked()),
            ),
            (NumberType::F64, _) => opposite(
                cmp_i64_to_f64(other.small(), self.as_f64_unchecked()),
            ),
            (_, NumberType::F64) => cmp_i64_to_f64(self.small(), other.as_f64_unchecked()),
            (NumberType::U64, _) => {
                proof {
                    lemma_int_scaled_monotonic(other.int_value(), self.int_value());
                }
                Ordering::Greater
            },
            (_, NumberType::U64) => {
                proof {
                    lemma_int_scaled_monotonic(self.int_value(), other.int_value());
                }
                Ordering::Less
            },
            _ => order_i64(self.small(), other.small()),
        }
    }

    /// The bits of the double that the value is, where it is one.
    pub fn to_f64(&self) -> (r: Option<u64>)
        requires
            self.wf(),
        ensures
            match r {
                Some(bits) => float_finite(bits) && float_scaled(bits) == self.scaled(),
                None => forall|bits: u64|
                    float_finite(bits) ==> #[trigger] float_scaled(bits) != self.scaled(),
            },
            self.decimal() ==> r == Some(self.payload()),
            !self.decimal() && self.scaled() == 0 ==> r == Some(0u64),
    {
        proof {
            lemma_pow2_pos(POINT as nat);
        }
        match self.type_ {
            NumberType::Static | NumberType::I24 | NumberType::I64 => {
                let v = self.small();
                let mag = magnitude(v);
                proof {
                    lemma_int_scaled_sign(v as int);
                    lemma_int_scaled_monotonic(v as int, 0);
                    assert(int_scaled(0) == 0);
                    if self.type_ != NumberType::I64 {
                        lemma_small_spans(mag);
                    }
                }
                if can_represent_as_f64(mag) {
                    Some(signed_bits(v < 0, mag))
                } else {
                    proof {
                        assert forall|bits: u64| float_finite(bits) implies #[trigger] float_scaled(
                            bits,
                        ) != self.scaled() by {
                            lemma_no_double(mag, v < 0, bits);
                        }
                    }
                    None
                }
            },
            NumberType::U64 => {
                let v = self.as_u64_unchecked();
                proof {
                    lemma_int_scaled_monotonic(v as int, 0);
                    assert(int_scaled(0) == 0);
                }
                if can_represent_as_f64(v) {
                    Some(signed_bits(false, v))
                } else {
                    proof {
                        assert forall|bits: u64| float_finite(bits) implies #[trigger] float_scaled(
                            bits,
                        ) != self.scaled() by {
                            lemma_no_double(v, false, bits);
                        }
                    }
                    None
                }
            },
            NumberType::F64 => Some(self.as_f64_unchecked()),
        }
    }

    /// The bits of the single-precision float that the value is, where it is one.
    pub fn to_f32(&self) -> (r: Option<u32>)
        requires
            self.wf(),
        ensures
            match r {
                Some(bits) => single_finite(bits) && single_scaled(bits) == self.scaled(),
                None => forall|bits: u32|
                    single_finite(bits) ==> #[trigger] single_scaled(bits) != self.scaled(),
            },
            !self.decimal() && self.scaled() == 0 ==> r == Some(0u32),
    {
        let (negative, m, sh) = self.parts();
        proof {
            lemma_parts_nonnegative(m, sh);
        }
        single_bits(negative, m, sh)
    }

    /// Whether the number was written with a decimal point.
    pub fn has_decimal_point(&self) -> (r: bool)
        ensures
            r == self.decimal(),
    {
        match self.type_ {
            NumberType::Static | NumberType::I24 | NumberType::I64 | NumberType::U64 => false,
            NumberType::F64 => true,
        }
    }
}

/// A JSON number: any value that an `i64`, a `u64` or a finite double holds exactly,
/// together with whether it was written with a decimal point.
///
/// `1` and `1.0` are equal as numbers and differ in [`INumber::has_decimal_point`]. The
/// model of a number is [`INumber::scaled`], its value multiplied by 2^1074: an integer
/// for every number, which orders and equates numbers exactly.
#[derive(Debug)]
pub struct INumber {
    hd: Header,
}

impl INumber {
    #[verifier::type_invariant]
    spec fn inv(self) -> bool {
        self.hd.wf()
    }

    /// The value multiplied by 2^1074.
    pub closed spec fn scaled(&self) -> int {
        self.hd.scaled()
    }

    /// Whether the number carries a decimal point.
    pub closed spec fn decimal(&self) -> bool {
        self.hd.decimal()
    }

    /// Whether the number is held in the static tier.
    pub closed spec fn in_static_tier(&self) -> bool {
        self.hd.type_ == NumberType::Static
    }

    /// The number that stands for the integer `v`.
    pub closed spec fn of_int(v: int) -> INumber {
        if STATIC_LOWER <= v < STATIC_UPPER {
            INumber { hd: Header { type_: NumberType::Static, short: 0, static_: v as i16, wide: 0 } }
        } else if SHORT_LOWER <= v < SHORT_UPPER {
            INumber {
                hd: Header {
                    type_: NumberType::I24,
                    short: (v % 256) as u8,
                    static_: (v / 256) as i16,
                    wide: 0,
                },
            }
        } else if v <= i64::MAX {
            INumber {
                hd: Header {
                    type_: NumberType::I64,
                    short: 0,
                    static_: 0,
                    wide: (if v < 0 {
                        v + 0x1_0000_0000_0000_0000
                    } else {
                        v
                    }) as u64,
                },
            }
        } else {
            INumber { hd: Header { type_: NumberType::U64, short: 0, static_: 0, wide: v as u64 } }
        }
    }

    /// The number that stands for the finite double with the bit pattern `bits`.
    pub closed spec fn of_float_bits(bits: u64) -> INumber {
        INumber { hd: Header { type_: NumberType::F64, short: 0, static_: 0, wide: bits } }
    }

    /// What [`INumber::of_int`] stands for: the integer itself, without a decimal point,
    /// in the static tier exactly from -128 to 383.
    pub proof fn lemma_of_int(v: int)
        requires
            i64::MIN <= v <= u64::MAX,
        ensures
            Self::of_int(v).scaled() == int_scaled(v),
            !Self::of_int(v).decimal(),
            Self::of_int(v).in_static_tier() == (STATIC_LOWER <= v < STATIC_UPPER),
    {
    }

    /// What [`INumber::of_float_bits`] stands for: the double's value, with a decimal
    /// point, outside the static tier.
    pub proof fn lemma_of_float_bits(bits: u64)
        ensures
            Self::of_float_bits(bits).scaled() == float_scaled(bits),
            Self::of_float_bits(bits).decimal(),
            !Self::of_float_bits(bits).in_static_tier(),
    {
    }

    /// The encoding of the number.
    pub closed spec fn spec_type(&self) -> NumberType {
        self.hd.type_
    }

    /// The layout of the block that holds a number in an encoding: a header of four
    /// bytes, and after it, for the three wide encodings, the eight bytes of the payload.
    pub open spec fn spec_layout(type_: NumberType) -> Result<Layout, LayoutError> {
        match type_ {
            NumberType::Static | NumberType::I24 => Ok(Layout::of(4, 4)),
            _ => Ok(Layout::of(16, 8)),
        }
    }

    /// The layout of the block that holds a number in an encoding. A number of the
    /// static tier has no block of its own.
    pub fn layout(type_: NumberType) -> (r: Result<Layout, LayoutError>)
        requires
            type_ != NumberType::Static,
        ensures
            r == Self::spec_layout(type_),
    {
        proof {
            Layout::lemma_of(4, 4);
            Layout::lemma_of(8, 8);
            Layout::lemma_of(16, 8);
        }
        let header = match Layout::from_size_align(4, 4) {
            Ok(header) => header,
            Err(e) => {
                return Err(e);
            },
        };
        match type_ {
            NumberType::Static | NumberType::I24 => Ok(header),
            _ => {
                let payload = match Layout::from_size_align(8, 8) {
                    Ok(payload) => payload,
                    Err(e) => {
                        return Err(e);
                    },
                };
                match header.extend(payload) {
                    Ok((whole, _)) => {
                        let padded = whole.pad_to_align();
                        proof {
                            padded.lemma_ext(Layout::of(16, 8));
                        }
                        Ok(padded)
                    },
                    Err(e) => Err(e),
                }
            },
        }
    }

    /// What a conversion to an integer type with the values from `lo` to `hi` gives: the
    /// integer that the number is, where it is one of them, and nothing where it is not.
    pub open spec fn converted(&self, lo: int, hi: int, r: Option<int>) -> bool {
        match r {
            Some(v) => lo <= v <= hi && self.scaled() == int_scaled(v),
            None => forall|v: int| lo <= v <= hi ==> self.scaled() != #[trigger] int_scaled(v),
        }
    }

    /// A number that stands for the integer `x` converts to an integer type to `x`
    /// itself where the type holds `x`, and to nothing where it does not.
    pub proof fn lemma_round_trip(self, x: int, lo: int, hi: int, r: Option<int>)
        requires
            self.scaled() == int_scaled(x),
            self.converted(lo, hi, r),
        ensures
            r == if lo <= x <= hi {
                Some(x)
            } else {
                None
            },
    {
        match r {
            Some(v) => {
                lemma_int_scaled_monotonic(v, x);
            },
            None => {
                if lo <= x <= hi {
                    assert(self.scaled() != int_scaled(x));
                }
            },
        }
    }

    /// Two numbers that compare equal stand for the same value, whatever their
    /// encodings, and a number without a decimal point can equal one with.
    pub proof fn lemma_equal_across_encodings(v: int, bits: u64)
        requires
            i64::MIN <= v <= u64::MAX,
            float_scaled(bits) == int_scaled(v),
        ensures
            Self::of_int(v).scaled() == Self::of_float_bits(bits).scaled(),
            !Self::of_int(v).decimal(),
            Self::of_float_bits(bits).decimal(),
    {
    }

    /// Returns the number zero (without a decimal point).
    pub fn zero() -> (r: Self)
        ensures
            r == Self::of_int(0),
    {
        Self::new_static(0)
    }

    /// Returns the number one (without a decimal point).
    pub fn one() -> (r: Self)
        ensures
            r == Self::of_int(1),
    {
        Self::new_static(1)
    }

    fn new_static(value: i16) -> (r: Self)
        requires
            STATIC_LOWER <= value < STATIC_UPPER,
        ensures
            r == Self::of_int(value as int),
    {
        INumber { hd: Header { type_: NumberType::Static, short: 0, static_: value, wide: 0 } }
    }

    fn new_short(value: i32) -> (r: Self)
        requires
            SHORT_LOWER <= value < SHORT_UPPER,
        ensures
            r == Self::of_int(value as int),
    {
        if value >= STATIC_LOWER as i32 && value < STATIC_UPPER as i32 {
            Self::new_static(value as i16)
        } else {
            assert(-0x80_0000 <= value < 0x80_0000 ==> ((value >> 8) as i16) == value / 256 && (
            value as u8) == value % 256) by (bit_vector);
            let lo_bits = #[verifier::truncate] (value as u8);
            let hi_bits = #[verifier::truncate] ((value >> 8) as i16);
            INumber { hd: Header { type_: NumberType::I24, short: lo_bits, static_: hi_bits, wide: 0 } }
        }
    }

    fn new_i64(value: i64) -> (r: Self)
        ensures
            r == Self::of_int(value as int),
    {
        if value >= SHORT_LOWER && value < SHORT_UPPER {
            Self::new_short(value as i32)
        } else {
            assert(value >= 0 ==> (value as u64) == value) by (bit_vector);
            assert(value < 0 ==> (value as u64) == value + 0x1_0000_0000_0000_0000)
                by (bit_vector);
            let wide = #[verifier::truncate] (value as u64);
            INumber { hd: Header { type_: NumberType::I64, short: 0, static_: 0, wide } }
        }
    }

    fn new_u64(value: u64) -> (r: Self)
        ensures
            r == Self::of_int(value as int),
    {
        if value <= i64::MAX as u64 {
            Self::new_i64(value as i64)
        } else {
            INumber { hd: Header { type_: NumberType::U64, short: 0, static_: 0, wide: value } }
        }
    }

    fn new_f64(bits: u64) -> (r: Self)
        requires
            float_finite(bits),
        ensures
            r == Self::of_float_bits(bits),
    {
        INumber { hd: Header { type_: NumberType::F64, short: 0, static_: 0, wide: bits } }
    }

    /// The number that a double stands for, given the double's bits. Fails on an infinity
    /// or a NaN, and on nothing else.
    pub fn try_from_f64_bits(bits: u64) -> (r: Result<Self, ()>)
        ensures
            float_finite(bits) ==> r == Ok::<Self, ()>(Self::of_float_bits(bits)),
            !float_finite(bits) ==> r is Err,
    {
        if (bits / EXP_UNIT) % 2048 != 2047 {
            Ok(Self::new_f64(bits))
        } else {
            Err(())
        }
    }

    /// Whether the number is held in the static tier, which costs no allocation.
    pub fn is_static(&self) -> (r: bool)
        ensures
            r == self.in_static_tier(),
    {
        self.hd.type_ == NumberType::Static
    }

    /// A copy of the number.
    pub fn clone_impl(&self) -> (r: Self)
        ensures
            r == *self,
    {
        proof {
            use_type_invariant(self);
        }
        INumber { hd: self.hd }
    }

    /// Converts this number to an i64 if it can be represented exactly.
    pub fn to_i64(&self) -> (r: Option<i64>)
        ensures
            self.converted(
                i64::MIN as int,
                i64::MAX as int,
                match r {
                    Some(v) => Some(v as int),
                    None => None,
                },
            ),
            match r {
                Some(v) => self.scaled() == int_scaled(v as int),
                None => forall|v: int|
                    i64::MIN <= v <= i64::MAX ==> self.scaled() != #[trigger] int_scaled(v),
            },
    {
        proof {
            use_type_invariant(self);
        }
        self.hd.to_i64()
    }

    /// Converts this number to a u64 if it can be represented exactly.
    pub fn to_u64(&self) -> (r: Option<u64>)
        ensures
            self.converted(
                0,
                u64::MAX as int,
                match r {
                    Some(v) => Some(v as int),
                    None => None,
                },
            ),
            match r {
                Some(v) => self.scaled() == int_scaled(v as int),
                None => forall|v: int|
                    0 <= v <= u64::MAX ==> self.scaled() != #[trigger] int_scaled(v),
            },
    {
        proof {
            use_type_invariant(self);
        }
        self.hd.to_u64()
    }

    /// The bits that the number holds, where it is a double.
    pub closed spec fn float_bits(&self) -> u64 {
        self.hd.wide
    }

    /// A number made of the bits of a double holds those bits.
    pub proof fn lemma_float_bits(bits: u64)
        ensures
            Self::of_float_bits(bits).float_bits() == bits,
    {
    }

    /// Converts this number to an f64, given by its bits, if it can be represented
    /// exactly. A number that was made of a double gives the bits it was made of, and the
    /// integer zero gives the bits of the double zero.
    pub fn to_f64(&self) -> (r: Option<u64>)
        ensures
            match r {
                Some(bits) => float_finite(bits) && float_scaled(bits) == self.scaled(),
                None => forall|bits: u64|
                    float_finite(bits) ==> #[trigger] float_scaled(bits) != self.scaled(),
            },
            self.decimal() ==> r == Some(self.float_bits()),
            !self.decimal() && self.scaled() == 0 ==> r == Some(0u64),
    {
        proof {
            use_type_invariant(self);
        }
        self.hd.to_f64()
    }

    /// Converts this number to an f32, given by its bits, if it can be represented
    /// exactly.
    pub fn to_f32(&self) -> (r: Option<u32>)
        ensures
            match r {
                Some(bits) => single_finite(bits) && single_scaled(bits) == self.scaled(),
                None => forall|bits: u32|
                    single_finite(bits) ==> #[trigger] single_scaled(bits) != self.scaled(),
            },
            !self.decimal() && self.scaled() == 0 ==> r == Some(0u32),
    {
        proof {
            use_type_invariant(self);
        }
        self.hd.to_f32()
    }

    /// Converts this number to an i32 if it can be represented exactly.
    pub fn to_i32(&self) -> (r: Option<i32>)
        ensures
            self.converted(
                i32::MIN as int,
                i32::MAX as int,
                match r {
                    Some(v) => Some(v as int),
                    None => None,
                },
            ),
            match r {
                Some(v) => self.scaled() == int_scaled(v as int),
                None => forall|v: int|
                    i32::MIN <= v <= i32::MAX ==> self.scaled() != #[trigger] int_scaled(v),
            },
    {
        match self.to_i64() {
            Some(x) => {
                if i32::MIN as i64 <= x && x <= i32::MAX as i64 {
                    Some(x as i32)
                } else {
                    proof {
                        assert forall|v: int| i32::MIN <= v <= i32::MAX implies self.scaled()
                            != #[trigger] int_scaled(v) by {
                            lemma_int_scaled_monotonic(v, x as int);
                        }
                    }
                    None
                }
            },
            None => None,
        }
    }

    /// Converts this number to a u32 if it can be represented exactly.
    pub fn to_u32(&self) -> (r: Option<u32>)
        ensures
            self.converted(
                0,
                u32::MAX as int,
                match r {
                    Some(v) => Some(v as int),
                    None => None,
                },
            ),
            match r {
                Some(v) => self.scaled() == int_scaled(v as int),
                None => forall|v: int|
                    0 <= v <= u32::MAX ==> self.scaled() != #[trigger] int_scaled(v),
            },
    {
        match self.to_u64() {
            Some(x) => {
                if x <= u32::MAX as u64 {
                    Some(x as u32)
                } else {
                    proof {
                        assert forall|v: int| 0 <= v <= u32::MAX implies self.scaled()
                            != #[trigger] int_scaled(v) by {
                            lemma_int_scaled_monotonic(v, x as int);
                        }
                    }
                    None
                }
            },
            None => None,
        }
    }

    /// Converts this number to an isize if it can be represented exactly.
    pub fn to_isize(&self) -> (r: Option<isize>)
        ensures
            self.converted(
                isize::MIN as int,
                isize::MAX as int,
                match r {
                    Some(v) => Some(v as int),
                    None => None,
                },
            ),
            match r {
                Some(v) => self.scaled() == int_scaled(v as int),
                None => forall|v: int|
                    isize::MIN <= v <= isize::MAX ==> self.scaled() != #[trigger] int_scaled(v),
            },
    {
        match self.to_i64() {
            Some(x) => {
                if isize::MIN as i64 <= x && x <= isize::MAX as i64 {
                    Some(x as isize)
                } else {
                    proof {
                        assert forall|v: int| isize::MIN <= v <= isize::MAX implies self.scaled()
                            != #[trigger] int_scaled(v) by {
                            lemma_int_scaled_monotonic(v, x as int);
                        }
                    }
                    None
                }
            },
            None => None,
        }
    }

    /// Converts this number to a usize if it can be represented exactly.
    pub fn to_usize(&self) -> (r: Option<usize>)
        ensures
            self.converted(
                0,
                usize::MAX as int,
                match r {
                    Some(v) => Some(v as int),
                    None => None,
                },
            ),
            match r {
                Some(v) => self.scaled() == int_scaled(v as int),
                None => forall|v: int|
                    0 <= v <= usize::MAX ==> self.scaled() != #[trigger] int_scaled(v),
            },
    {
        match self.to_u64() {
            Some(x) => {
                if x <= usize::MAX as u64 {
                    Some(x as usize)
                } else {
                    proof {
                        assert forall|v: int| 0 <= v <= usize::MAX implies self.scaled()
                            != #[trigger] int_scaled(v) by {
                            lemma_int_scaled_monotonic(v, x as int);
                        }
                    }
                    None
                }
            },
            None => None,
        }
    }

    /// Orders two numbers by value: `1` and `1.0` are equal.
    pub fn cmp(&self, other: &Self) -> (r: Ordering)
        ensures
            r == order_of(self.scaled(), other.scaled()),
    {
        proof {
            use_type_invariant(self);
            use_type_invariant(other);
        }
        self.hd.cmp(&other.hd)
    }

    /// The word by which the number is hashed: the integer that it is, if it is one that
    /// 64 bits hold, and else the bits of the double that it is. Numbers that are equal
    /// have the same word.
    pub fn hash_key(&self) -> (r: u64)
        ensures
            r == Self::spec_hash_key(self.scaled(), self.float_bits()),
    {
        proof {
            use_type_invariant(self);
        }
        match self.to_i64() {
            Some(v) => {
                proof {
                    lemma_i64_key(self.scaled(), v, self.float_bits());
                }
                i64_bits(v)
            },
            None => match self.to_u64() {
                Some(v) => {
                    proof {
                        lemma_u64_key(self.scaled(), v, self.float_bits());
                    }
                    v
                },
                None => {
                    proof {
                        if self.hd.type_ != NumberType::F64 {
                            let v = self.hd.int_value();
                            assert(self.scaled() == int_scaled(v));
                            assert(i64::MIN <= v <= u64::MAX);
                        }
                        lemma_float_key(self.scaled(), self.float_bits());
                    }
                    self.hd.as_f64_unchecked()
                },
            },
        }
    }

    /// Two numbers that are equal are hashed by the same word: the word is set by the
    /// value, whatever the bits of the double that has it.
    pub proof fn lemma_equal_numbers_same_key(scaled: int, a: u64, b: u64)
        requires
            float_finite(a),
            float_finite(b),
            float_scaled(a) == scaled,
            float_scaled(b) == scaled,
        ensures
            Self::spec_hash_key(scaled, a) == Self::spec_hash_key(scaled, b),
    {
        if scaled == 0 {
            assert(scaled == int_scaled(0));
        } else {
            lemma_float_scaled_injective(a, b);
        }
    }

    /// The word by which a number of the given value is hashed. It is set by the value,
    /// but for a value that is no integer of 64 bits, which only a double has: there the
    /// word is the bits of the double.
    pub open spec fn spec_hash_key(scaled: int, bits: u64) -> u64 {
        if exists|v: int| i64::MIN <= v <= u64::MAX && scaled == #[trigger] int_scaled(v) {
            let v = choose|v: int| i64::MIN <= v <= u64::MAX && scaled == #[trigger] int_scaled(v);
            if v < 0 {
                (v + 0x1_0000_0000_0000_0000) as u64
            } else {
                v as u64
            }
        } else {
            bits
        }
    }

    /// This allows distinguishing between `1.0` and `1` in the original JSON.
    /// Numeric operations will otherwise treat these two values as equivalent.
    pub fn has_decimal_point(&self) -> (r: bool)
        ensures
            r == self.decimal(),
    {
        self.hd.has_decimal_point()
    }
}

impl<A: DefragAllocator> Defrag<A> for INumber {
    open spec fn same_content(&self, other: &Self) -> bool {
        *self == *other
    }

    fn defrag(self, defrag_allocator: &mut A) -> (r: Self) {
        if !self.is_static() {
            match Self::layout(self.hd.type_) {
                Ok(layout) => defrag_allocator.realloc_ptr(layout),
                Err(_) => {},
            }
        }
        self
    }
}

impl Clone for INumber {
    fn clone(&self) -> (r: Self)
        ensures
            r == *self,
    {
        self.clone_impl()
    }
}

impl From<u64> for INumber {
    fn from(v: u64) -> (r: Self) {
        Self::new_u64(v)
    }
}

impl vstd::std_specs::convert::FromSpecImpl<u64> for INumber {
    open spec fn obeys_from_spec() -> bool {
        true
    }

    open spec fn from_spec(v: u64) -> Self {
        Self::of_int(v as int)
    }
}

impl From<u32> for INumber {
    fn from(v: u32) -> (r: Self) {
        Self::new_u64(v as u64)
    }
}

impl vstd::std_specs::convert::FromSpecImpl<u32> for INumber {
    open spec fn obeys_from_spec() -> bool {
        true
    }

    open spec fn from_spec(v: u32) -> Self {
        Self::of_int(v as int)
    }
}

impl From<u16> for INumber {
    fn from(v: u16) -> (r: Self) {
        Self::new_short(v as i32)
    }
}

impl vstd::std_specs::convert::FromSpecImpl<u16> for INumber {
    open spec fn obeys_from_spec() -> bool {
        true
    }

    open spec fn from_spec(v: u16) -> Self {
        Self::of_int(v as int)
    }
}

impl From<u8> for INumber {
    fn from(v: u8) -> (r: Self) {
        Self::new_static(v as i16)
    }
}

impl vstd::std_specs::convert::FromSpecImpl<u8> for INumber {
    open spec fn obeys_from_spec() -> bool {
        true
    }

    open spec fn from_spec(v: u8) -> Self {
        Self::of_int(v as int)
    }
}

impl From<usize> for INumber {
    fn from(v: usize) -> (r: Self) {
        Self::new_u64(v as u64)
    }
}

impl vstd::std_specs::convert::FromSpecImpl<usize> for INumber {
    open spec fn obeys_from_spec() -> bool {
        true
    }

    open spec fn from_spec(v: usize) -> Self {
        Self::of_int(v as int)
    }
}

impl From<i64> for INumber {
    fn from(v: i64) -> (r: Self) {
        Self::new_i64(v)
    }
}

impl vstd::std_specs::convert::FromSpecImpl<i64> for INumber {
    open spec fn obeys_from_spec() -> bool {
        true
    }

    open spec fn from_spec(v: i64) -> Self {
        Self::of_int(v as int)
    }
}

impl From<i32> for INumber {
    fn from(v: i32) -> (r: Self) {
        Self::new_i64(v as i64)
    }
}

impl vstd::std_specs::convert::FromSpecImpl<i32> for INumber {
    open spec fn obeys_from_spec() -> bool {
        true
    }

    open spec fn from_spec(v: i32) -> Self {
        Self::of_int(v as int)
    }
}

impl From<i16> for INumber {
    fn from(v: i16) -> (r: Self) {
        Self::new_short(v as i32)
    }
}

impl vstd::std_specs::convert::FromSpecImpl<i16> for INumber {
    open spec fn obeys_from_spec() -> bool {
        true
    }

    open spec fn from_spec(v: i16) -> Self {
        Self::of_int(v as int)
    }
}

impl From<i8> for INumber {
    fn from(v: i8) -> (r: Self) {
        Self::new_static(v as i16)
    }
}

impl vstd::std_specs::convert::FromSpecImpl<i8> for INumber {
    open spec fn obeys_from_spec() -> bool {
        true
    }

    open spec fn from_spec(v: i8) -> Self {
        Self::of_int(v as int)
    }
}

impl From<isize> for INumber {
    fn from(v: isize) -> (r: Self) {
        Self::new_i64(v as i64)
    }
}

impl vstd::std_specs::convert::FromSpecImpl<isize> for INumber {
    open spec fn obeys_from_spec() -> bool {
        true
    }

    open spec fn from_spec(v: isize) -> Self {
        Self::of_int(v as int)
    }
}

impl PartialEq for INumber {
    fn eq(&self, other: &Self) -> (r: bool) {
        matches!(self.cmp(other), Ordering::Equal)
    }
}

impl vstd::std_specs::cmp::PartialEqSpecImpl for INumber {
    open spec fn obeys_eq_spec() -> bool {
        true
    }

    open spec fn eq_spec(&self, other: &Self) -> bool {
        self.scaled() == other.scaled()
    }
}

impl Eq for INumber {

}

impl PartialOrd for INumber {
    fn partial_cmp(&self, other: &Self) -> (r: Option<Ordering>) {
        Some(self.cmp(other))
    }
}

impl vstd::std_specs::cmp::PartialOrdSpecImpl for INumber {
    open spec fn obeys_partial_cmp_spec() -> bool {
        true
    }

    open spec fn partial_cmp_spec(&self, other: &Self) -> Option<Ordering> {
        Some(order_of(self.scaled(), other.scaled()))
    }
}

impl Default for INumber {
    fn default() -> (r: Self)
        ensures
            r == Self::of_int(0),
    {
        Self::zero()
    }
}

} // verus!
