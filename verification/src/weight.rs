//! Weights: single-precision numbers kept by their encoding.
//!
//! Observation strengths, landmark weights, gate boosts and gate scores are
//! all IEEE 754 binary32 numbers. A [`Weight`] holds the 32 bits of such a
//! number and works on them with integer arithmetic only, so a beam gives the
//! same order, bit for bit, on every target, with or without a
//! floating-point unit.
//!
//! The contracts are stated over what a number is worth. Every finite
//! binary32 number is a whole multiple of 2^-149, so [`magnitude`] counts the
//! absolute value of a number in units of 2^-149, and a sum or a product is
//! described as the [`nearest`] representable number to the exact result,
//! ties to the even encoding.

use vstd::prelude::*;

verus! {

/// The encoding of positive infinity; the encodings above it are the NaNs.
pub const INFINITY_BITS: u32 = 0x7f80_0000;

/// The encoding of the one NaN that arithmetic gives back.
pub const NAN_BITS: u32 = 0x7fc0_0000;

/// The encoding of 1.0.
pub const ONE_BITS: u32 = 0x3f80_0000;

/// A binary32 number, by its encoding.
#[derive(Debug, Clone, Copy, PartialEq, Eq, Structural)]
pub struct Weight {
    /// Sign bit, eight exponent bits, twenty-three fraction bits.
    pub bits: u32,
}

/// What the encoding `e` (sign bit clear) is worth, in units of 2^-149.
///
/// Below 2^23 the number is subnormal and counts itself. Above, the fraction
/// gets its implicit leading one and is scaled by the exponent. Infinity is
/// given the value that the next exponent would have, which is exactly what
/// rounding compares against to decide on an overflow.
pub open spec fn magnitude(e: int) -> int {
    if e < 0x80_0000 {
        e
    } else {
        (0x80_0000 + e % 0x80_0000) * vstd::arithmetic::power2::pow2((e / 0x80_0000 - 1) as nat)
    }
}

/// How far the encoding `e` is from the exact value `num / den`, in units of
/// `1 / den`.
pub open spec fn distance(num: int, den: int, e: int) -> int {
    let d = magnitude(e) * den - num;
    if d < 0 {
        -d
    } else {
        d
    }
}

/// True of the encoding that round-to-nearest, ties-to-even picks for the
/// exact value `num / den` (in units of 2^-149).
pub open spec fn nearest(num: int, den: int, e: int) -> bool {
    &&& 0 <= e <= INFINITY_BITS
    &&& forall|s: int|
        0 <= s <= INFINITY_BITS && s != e ==> {
            ||| distance(num, den, e) < #[trigger] distance(num, den, s)
            ||| distance(num, den, e) == distance(num, den, s) && e % 2 == 0
        }
}

impl Weight {
    /// True if the sign bit is set.
    pub open spec fn negative(self) -> bool {
        self.bits >= 0x8000_0000
    }

    /// The encoding without its sign bit.
    pub open spec fn unsigned(self) -> int {
        self.bits as int % 0x8000_0000
    }

    /// True if the number is neither infinite nor NaN.
    pub open spec fn finite(self) -> bool {
        self.unsigned() < INFINITY_BITS
    }

    /// True if this is not a number.
    pub open spec fn nan(self) -> bool {
        self.unsigned() > INFINITY_BITS
    }

    /// What the number is worth, in units of 2^-149. The two zeros are worth
    /// the same.
    pub open spec fn value(self) -> int {
        if self.negative() {
            -magnitude(self.unsigned())
        } else {
            magnitude(self.unsigned())
        }
    }

    /// Place in the total order of all encodings: negative NaNs, negative
    /// numbers, negative zero, positive zero, positive numbers, positive NaNs.
    pub open spec fn rank(self) -> int {
        if self.negative() {
            -self.unsigned() - 1
        } else {
            self.unsigned()
        }
    }

    /// True if the number is positive zero or above, infinity included.
    pub open spec fn amount(self) -> bool {
        self.bits <= INFINITY_BITS
    }
}

/// Encodings are worth more the larger they are.
pub proof fn lemma_magnitude_increases(a: int, b: int)
    requires
        0 <= a < b,
    ensures
        0 <= magnitude(a) < magnitude(b),
    decreases b - a,
{
    if a + 1 < b {
        lemma_magnitude_increases(a, b - 1);
        lemma_magnitude_increases(b - 1, b);
    } else {
        lemma_magnitude_step(a);
    }
}

proof fn lemma_magnitude_injective(a: int, b: int)
    requires
        0 <= a,
        0 <= b,
    ensures
        a < b <==> magnitude(a) < magnitude(b),
        a == b <==> magnitude(a) == magnitude(b),
        a == 0 <==> magnitude(a) == 0,
        b == 0 <==> magnitude(b) == 0,
        0 <= magnitude(a),
        0 <= magnitude(b),
{
    if a < b {
        lemma_magnitude_increases(a, b);
    }
    if b < a {
        lemma_magnitude_increases(b, a);
    }
    if a > 0 {
        lemma_magnitude_increases(0, a);
    }
    if b > 0 {
        lemma_magnitude_increases(0, b);
    }
}

/// Of numbers with the sign bit clear, the larger encoding is worth more.
pub proof fn lemma_value_order(a: Weight, b: Weight)
    requires
        a.amount() || b.amount(),
    ensures
        a.amount() && b.amount() ==> (a.bits < b.bits <==> a.value() < b.value()),
        a.amount() && a.bits > 0 && a.value() <= b.value() ==> !b.negative(),
{
    lemma_magnitude_injective(a.unsigned(), b.unsigned());
}

/// An encoding put together from a scale `k` and a significand `q` is worth
/// `q * 2^k`. The significand may be one past the top of its range: the carry
/// then moves into the exponent.
proof fn lemma_magnitude_parts(k: nat, q: int)
    requires
        0 <= q <= 0x100_0000,
        k == 0 || q >= 0x80_0000,
    ensures
        magnitude(k * 0x80_0000 + q) == q * vstd::arithmetic::power2::pow2(k),
{
    let e = k * 0x80_0000 + q;
    let p = vstd::arithmetic::power2::pow2(k) as int;
    vstd::arithmetic::power2::lemma2_to64();
    if q < 0x80_0000 {
        assert(q * p == q) by (nonlinear_arith)
            requires
                p == 1,
        ;
    } else if q < 0x100_0000 {
        assert(e / 0x80_0000 == k + 1);
        assert(e % 0x80_0000 == q - 0x80_0000);
    } else {
        assert(e / 0x80_0000 == k + 2);
        assert(e % 0x80_0000 == 0);
        vstd::arithmetic::power2::lemma_pow2_unfold(k + 1);
        assert(0x80_0000 * (2 * p) == 0x100_0000 * p);
    }
}

proof fn lemma_magnitude_step(a: int)
    requires
        0 <= a,
    ensures
        0 <= magnitude(a) < magnitude(a + 1),
{
    let k = if a < 0x80_0000 {
        0
    } else {
        (a / 0x80_0000 - 1) as nat
    };
    let q = a - k * 0x80_0000;
    lemma_magnitude_parts(k, q);
    lemma_magnitude_parts(k, q + 1);
    vstd::arithmetic::power2::lemma_pow2_pos(k);
    let p = vstd::arithmetic::power2::pow2(k) as int;
    assert(0 <= q * p < (q + 1) * p) by (nonlinear_arith)
        requires
            p > 0,
            q >= 0,
    ;
}

/// To be the nearest encoding it is enough to beat the two neighbours: the
/// exact value lies between the midpoints on either side.
proof fn lemma_nearest_by_neighbours(num: int, den: int, e: int)
    requires
        den > 0,
        0 <= e <= INFINITY_BITS,
        e > 0 ==> {
            ||| (magnitude(e - 1) + magnitude(e)) * den < 2 * num
            ||| (magnitude(e - 1) + magnitude(e)) * den == 2 * num && e % 2 == 0
        },
        e < INFINITY_BITS ==> {
            ||| 2 * num < (magnitude(e) + magnitude(e + 1)) * den
            ||| 2 * num == (magnitude(e) + magnitude(e + 1)) * den && e % 2 == 0
        },
    ensures
        nearest(num, den, e),
{
    let m = magnitude(e);
    assert forall|s: int| 0 <= s <= INFINITY_BITS && s != e implies {
        ||| distance(num, den, e) < #[trigger] distance(num, den, s)
        ||| distance(num, den, e) == distance(num, den, s) && e % 2 == 0
    } by {
        let t = magnitude(s);
        if s > e {
            let n = magnitude(e + 1);
            lemma_magnitude_increases(e, e + 1);
            if s > e + 1 {
                lemma_magnitude_increases(e + 1, s);
            }
            assert((m + n) * den == m * den + n * den) by (nonlinear_arith);
            assert(n * den <= t * den) by (nonlinear_arith)
                requires
                    n <= t,
                    den > 0,
            ;
            assert(m * den < n * den) by (nonlinear_arith)
                requires
                    m < n,
                    den > 0,
            ;
        } else {
            let n = magnitude(e - 1);
            lemma_magnitude_increases(e - 1, e);
            if s < e - 1 {
                lemma_magnitude_increases(s, e - 1);
            }
            assert((n + m) * den == n * den + m * den) by (nonlinear_arith);
            assert(t * den <= n * den) by (nonlinear_arith)
                requires
                    t <= n,
                    den > 0,
            ;
            assert(n * den < m * den) by (nonlinear_arith)
                requires
                    n < m,
                    den > 0,
            ;
        }
    }
}

/// The last encoding, up to `top`, that is not above the exact value.
proof fn lemma_floor(num: int, den: int, top: int) -> (e: int)
    requires
        0 <= num,
        0 < den,
        0 <= top,
    ensures
        0 <= e <= top,
        magnitude(e) * den <= num,
        e < top ==> num < magnitude(e + 1) * den,
    decreases top,
{
    if magnitude(top) * den <= num {
        top
    } else {
        assert(0 * den == 0) by (nonlinear_arith);
        lemma_floor(num, den, top - 1)
    }
}

/// Some encoding is the nearest.
pub proof fn lemma_nearest_exists(num: int, den: int) -> (e: int)
    requires
        0 <= num,
        0 < den,
    ensures
        nearest(num, den, e),
{
    let top = INFINITY_BITS as int;
    let f = lemma_floor(num, den, top);
    let m = magnitude(f);
    if f > 0 {
        let b = magnitude(f - 1);
        lemma_magnitude_increases(f - 1, f);
        assert((b + m) * den < 2 * num) by (nonlinear_arith)
            requires
                b < m,
                den > 0,
                m * den <= num,
        ;
    }
    if f == top {
        lemma_nearest_by_neighbours(num, den, f);
        f
    } else {
        let a = magnitude(f + 1);
        if 2 * num < (m + a) * den || (2 * num == (m + a) * den && f % 2 == 0) {
            lemma_nearest_by_neighbours(num, den, f);
            f
        } else {
            if f + 1 < top {
                let c = magnitude(f + 2);
                lemma_magnitude_increases(f + 1, f + 2);
                assert(2 * num < (a + c) * den) by (nonlinear_arith)
                    requires
                        a < c,
                        den > 0,
                        num < a * den,
                ;
            }
            lemma_nearest_by_neighbours(num, den, f + 1);
            f + 1
        }
    }
}

/// Only one encoding is the nearest.
pub proof fn lemma_nearest_unique(num: int, den: int, a: int, b: int)
    requires
        den > 0,
        nearest(num, den, a),
        nearest(num, den, b),
    ensures
        a == b,
{
    if a != b {
        let lo = if a < b { a } else { b };
        let hi = if a < b { b } else { a };
        assert(distance(num, den, a) == distance(num, den, b));
        lemma_magnitude_increases(lo, hi);
        if lo + 1 < hi {
            lemma_magnitude_increases(lo, lo + 1);
            lemma_magnitude_increases(lo + 1, hi);
            let (x, y, z) = (magnitude(lo) * den, magnitude(lo + 1) * den, magnitude(hi) * den);
            assert(x < y < z) by (nonlinear_arith)
                requires
                    magnitude(lo) < magnitude(lo + 1) < magnitude(hi),
                    den > 0,
                    x == magnitude(lo) * den,
                    y == magnitude(lo + 1) * den,
                    z == magnitude(hi) * den,
            ;
            assert(distance(num, den, lo + 1) < distance(num, den, lo));
        }
    }
}

/// The significand `q` on the scale `u` is within half a unit of the exact
/// value, even on a tie, and leaves none of its twenty-four bits unused.
spec fn rounded(num: int, u: int, q: int) -> bool {
    let unit = vstd::arithmetic::power2::pow2(u as nat) * vstd::arithmetic::power2::pow2(149);
    &&& 0 <= q <= 0x100_0000
    &&& u == 0 || q >= 0x80_0000
    &&& (2 * q - 1) * unit <= 2 * num <= (2 * q + 1) * unit
    &&& (2 * q - 1) * unit == 2 * num ==> q % 2 == 0
    &&& (2 * q + 1) * unit == 2 * num ==> q % 2 == 0
    &&& u > 0 && q == 0x80_0000 ==> q * unit <= num
}

/// Scale and significand of a rounded value make the nearest encoding.
proof fn lemma_rounded_is_nearest(num: int, u: nat, q: int)
    requires
        rounded(num, u as int, q),
    ensures
        ({
            let e = u * 0x80_0000 + q;
            nearest(
                num,
                vstd::arithmetic::power2::pow2(149) as int,
                if e < INFINITY_BITS {
                    e
                } else {
                    INFINITY_BITS as int
                },
            )
        }),
{
    let den = vstd::arithmetic::power2::pow2(149) as int;
    let scale = vstd::arithmetic::power2::pow2(u) as int;
    let unit = scale * den;
    let e = u * 0x80_0000 + q;
    let m = magnitude(e);
    vstd::arithmetic::power2::lemma_pow2_pos(149);
    vstd::arithmetic::power2::lemma_pow2_pos(u);
    lemma_magnitude_parts(u, q);
    assert(unit > 0) by (nonlinear_arith)
        requires
            scale > 0,
            den > 0,
            unit == scale * den,
    ;
    assert(m * den == q * unit) by (nonlinear_arith)
        requires
            m == q * scale,
            unit == scale * den,
    ;
    assert((2 * q - 1) * unit == 2 * (q * unit) - unit) by (nonlinear_arith);
    assert((2 * q + 1) * unit == 2 * (q * unit) + unit) by (nonlinear_arith);
    if e > 0 {
        let b = magnitude(e - 1);
        lemma_magnitude_increases(e - 1, e);
        assert((b + m) * den == b * den + m * den) by (nonlinear_arith);
        assert(b * den < m * den) by (nonlinear_arith)
            requires
                b < m,
                den > 0,
        ;
        if u == 0 || q > 0x80_0000 {
            lemma_magnitude_parts(u, q - 1);
            assert(b * den == q * unit - unit) by (nonlinear_arith)
                requires
                    b == (q - 1) * scale,
                    unit == scale * den,
            ;
        }
    }
    if e < INFINITY_BITS {
        let a = magnitude(e + 1);
        assert((m + a) * den == m * den + a * den) by (nonlinear_arith);
        if q < 0x100_0000 {
            lemma_magnitude_parts(u, q + 1);
            assert(a * den == q * unit + unit) by (nonlinear_arith)
                requires
                    a == (q + 1) * scale,
                    unit == scale * den,
            ;
        } else {
            lemma_magnitude_parts(u + 1, 0x80_0001);
            vstd::arithmetic::power2::lemma_pow2_unfold(u + 1);
            assert(a * den == q * unit + 2 * unit) by (nonlinear_arith)
                requires
                    a == 0x80_0001 * (2 * scale),
                    q == 0x100_0000,
                    unit == scale * den,
            ;
        }
        lemma_nearest_by_neighbours(num, den, e);
    } else if e == INFINITY_BITS {
        lemma_nearest_by_neighbours(num, den, e);
    } else {
        let top = INFINITY_BITS as int;
        lemma_magnitude_increases(top - 1, top);
        if top < e - 1 {
            lemma_magnitude_increases(top, e - 1);
        }
        let (x, y, z) = (magnitude(top - 1), magnitude(top), magnitude(e - 1));
        assert((x + y) * den < 2 * (z * den)) by (nonlinear_arith)
            requires
                x < y <= z,
                den > 0,
        ;
        lemma_nearest_by_neighbours(num, den, top);
    }
}

/// What rounding knows of a significand `m` of `len` bits at exponent `k`.
spec fn scaled(m: int, k: int, len: int, u: int) -> bool {
    &&& 0 < len <= 50
    &&& vstd::arithmetic::power2::pow2((len - 1) as nat) <= m
    &&& m < vstd::arithmetic::power2::pow2(len as nat)
    &&& -149 <= k <= 400
    &&& u == if len - 24 + k > 0 {
        len - 24 + k
    } else {
        0
    }
}

/// The unit of the scale `u`, written from the exponent `k` up.
proof fn lemma_unit(k: int, u: int)
    requires
        -149 <= k,
        0 <= u,
    ensures
        u >= k ==> vstd::arithmetic::power2::pow2(u as nat) * vstd::arithmetic::power2::pow2(149)
            == vstd::arithmetic::power2::pow2((u - k) as nat) * vstd::arithmetic::power2::pow2(
            (k + 149) as nat,
        ),
        u <= k ==> vstd::arithmetic::power2::pow2((k + 149) as nat)
            == vstd::arithmetic::power2::pow2((k - u) as nat) * (vstd::arithmetic::power2::pow2(
            u as nat,
        ) * vstd::arithmetic::power2::pow2(149)),
{
    vstd::arithmetic::power2::lemma_pow2_adds(u as nat, 149);
    if u >= k {
        vstd::arithmetic::power2::lemma_pow2_adds((u - k) as nat, (k + 149) as nat);
    }
    if u <= k {
        vstd::arithmetic::power2::lemma_pow2_adds((k - u) as nat, (u + 149) as nat);
    }
}

/// A significand short enough to be kept whole.
proof fn lemma_exact_significand(m: int, k: int, len: int, u: int)
    requires
        scaled(m, k, len, u),
        u <= k,
    ensures
        ({
            let q = m * vstd::arithmetic::power2::pow2((k - u) as nat);
            &&& k - u <= 24
            &&& 0 <= q < 0x100_0000
            &&& rounded(m * vstd::arithmetic::power2::pow2((k + 149) as nat), u, q)
        }),
{
    let t = (k - u) as nat;
    let p = vstd::arithmetic::power2::pow2(t) as int;
    let q = m * p;
    let unit = vstd::arithmetic::power2::pow2(u as nat) * vstd::arithmetic::power2::pow2(149);
    let num = m * vstd::arithmetic::power2::pow2((k + 149) as nat);
    lemma_unit(k, u);
    assert(num == q * unit) by (nonlinear_arith)
        requires
            num == m * (p * unit),
            q == m * p,
    ;
    vstd::arithmetic::power2::lemma_pow2_pos(t);
    vstd::arithmetic::power2::lemma_pow2_pos(u as nat);
    vstd::arithmetic::power2::lemma_pow2_pos(149);
    vstd::arithmetic::power2::lemma_pow2_pos((len - 1) as nat);
    assert(unit > 0) by (nonlinear_arith)
        requires
            unit == vstd::arithmetic::power2::pow2(u as nat) * vstd::arithmetic::power2::pow2(149),
            vstd::arithmetic::power2::pow2(u as nat) > 0,
            vstd::arithmetic::power2::pow2(149) > 0,
    ;
    assert((2 * q - 1) * unit == 2 * (q * unit) - unit) by (nonlinear_arith);
    assert((2 * q + 1) * unit == 2 * (q * unit) + unit) by (nonlinear_arith);
    // The width of q.
    let hi = vstd::arithmetic::power2::pow2(len as nat) as int;
    let lo = vstd::arithmetic::power2::pow2((len - 1) as nat) as int;
    assert(lo * p <= q < hi * p) by (nonlinear_arith)
        requires
            lo <= m < hi,
            p > 0,
            q == m * p,
    ;
    assert(lo * p > 0) by (nonlinear_arith)
        requires
            lo > 0,
            p > 0,
    ;
    vstd::arithmetic::power2::lemma_pow2_adds(len as nat, t);
    vstd::arithmetic::power2::lemma_pow2_adds((len - 1) as nat, t);
    vstd::arithmetic::power2::lemma2_to64();
    if len + t < 24 {
        vstd::arithmetic::power2::lemma_pow2_strictly_increases((len + t) as nat, 24);
    }
}

/// A significand that loses `u - k` bits, rounded half to even.
proof fn lemma_rounded_significand(m: int, k: int, len: int, u: int)
    requires
        scaled(m, k, len, u),
        k < u,
    ensures
        ({
            let unit = vstd::arithmetic::power2::pow2((u - k) as nat) as int;
            let whole = m / unit;
            let rest = m % unit;
            let q = if rest > unit - rest || (rest == unit - rest && whole % 2 == 1) {
                whole + 1
            } else {
                whole
            };
            rounded(m * vstd::arithmetic::power2::pow2((k + 149) as nat), u, q)
        }),
{
    let c = vstd::arithmetic::power2::pow2((k + 149) as nat) as int;
    let cut = vstd::arithmetic::power2::pow2((u - k) as nat) as int;
    let unit = vstd::arithmetic::power2::pow2(u as nat) * vstd::arithmetic::power2::pow2(149);
    let whole = m / cut;
    let rest = m % cut;
    let num = m * c;
    lemma_unit(k, u);
    vstd::arithmetic::power2::lemma_pow2_pos((k + 149) as nat);
    vstd::arithmetic::power2::lemma_pow2_pos((u - k) as nat);
    vstd::arithmetic::div_mod::lemma_fundamental_div_mod(m, cut);
    vstd::arithmetic::div_mod::lemma_mod_bound(m, cut);
    // The width of the whole part.
    let hi = vstd::arithmetic::power2::pow2(len as nat) as int;
    let lo = vstd::arithmetic::power2::pow2((len - 1) as nat) as int;
    vstd::arithmetic::power2::lemma2_to64();
    vstd::arithmetic::power2::lemma_pow2_adds(24, (u - k) as nat);
    if len < 24 + u - k {
        vstd::arithmetic::power2::lemma_pow2_strictly_increases(len as nat, (24 + u - k) as nat);
    }
    assert(0 <= whole < 0x100_0000) by (nonlinear_arith)
        requires
            m == cut * whole + rest,
            0 <= rest < cut,
            0 <= m < 0x100_0000 * cut,
    ;
    if u > 0 {
        vstd::arithmetic::power2::lemma_pow2_adds(23, (u - k) as nat);
        assert(whole >= 0x80_0000) by (nonlinear_arith)
            requires
                m == cut * whole + rest,
                0 <= rest < cut,
                m >= 0x80_0000 * cut,
        ;
    }
    let q = if rest > cut - rest || (rest == cut - rest && whole % 2 == 1) {
        whole + 1
    } else {
        whole
    };
    assert(2 * num == 2 * whole * unit + 2 * rest * c) by (nonlinear_arith)
        requires
            num == m * c,
            m == cut * whole + rest,
            unit == cut * c,
    ;
    assert((2 * q - 1) * unit == 2 * q * unit - unit) by (nonlinear_arith);
    assert((2 * q + 1) * unit == 2 * q * unit + unit) by (nonlinear_arith);
    assert(2 * (whole + 1) * unit == 2 * whole * unit + 2 * unit) by (nonlinear_arith);
    assert(q * unit + q * unit == 2 * q * unit) by (nonlinear_arith);
    assert(0 <= 2 * rest * c < 2 * unit) by (nonlinear_arith)
        requires
            0 <= rest < cut,
            unit == cut * c,
            c > 0,
    ;
    if 2 * rest > cut {
        assert(2 * rest * c > unit) by (nonlinear_arith)
            requires
                2 * rest > cut,
                unit == cut * c,
                c > 0,
        ;
    } else if 2 * rest < cut {
        assert(2 * rest * c < unit) by (nonlinear_arith)
            requires
                2 * rest < cut,
                unit == cut * c,
                c > 0,
        ;
    } else {
        assert(2 * rest * c == unit) by (nonlinear_arith)
            requires
                2 * rest == cut,
                unit == cut * c,
        ;
    }
}

/// A significand too small to reach half of the smallest number.
proof fn lemma_vanishing_significand(m: int, k: int, len: int, u: int)
    requires
        scaled(m, k, len, u),
        u - k > 50,
    ensures
        u == 0,
        rounded(m * vstd::arithmetic::power2::pow2((k + 149) as nat), u, 0),
{
    let c = vstd::arithmetic::power2::pow2((k + 149) as nat) as int;
    let cut = vstd::arithmetic::power2::pow2((u - k) as nat) as int;
    let unit = vstd::arithmetic::power2::pow2(u as nat) * vstd::arithmetic::power2::pow2(149);
    lemma_unit(k, u);
    vstd::arithmetic::power2::lemma_pow2_pos((k + 149) as nat);
    vstd::arithmetic::power2::lemma_pow2_unfold((len + 1) as nat);
    if len + 1 < u - k {
        vstd::arithmetic::power2::lemma_pow2_strictly_increases((len + 1) as nat, (u - k) as nat);
    }
    assert(0 <= 2 * (m * c) < unit) by (nonlinear_arith)
        requires
            0 <= 2 * m < cut,
            unit == cut * c,
            c > 0,
    ;
    assert((2 * 0 - 1) * unit == -unit && (2 * 0 + 1) * unit == unit) by (nonlinear_arith);
}

/// Round `m * 2^k` (in units of 2^-149) to the nearest encoding.
fn round_to_nearest(m: u64, k: i32) -> (e: u32)
    requires
        m < 0x4_0000_0000_0000,
        -149 <= k <= 400,
    ensures
        nearest(
            m * vstd::arithmetic::power2::pow2((k + 149) as nat),
            vstd::arithmetic::power2::pow2(149) as int,
            e as int,
        ),
{
    if m == 0 {
        proof {
            vstd::arithmetic::power2::lemma_pow2_pos(149);
            vstd::arithmetic::power2::lemma_pow2_pos(0);
            assert(vstd::arithmetic::power2::pow2(0) * vstd::arithmetic::power2::pow2(149) > 0)
                by (nonlinear_arith)
                requires
                    vstd::arithmetic::power2::pow2(0) > 0,
                    vstd::arithmetic::power2::pow2(149) > 0,
            ;
            assert(m * vstd::arithmetic::power2::pow2((k + 149) as nat) == 0) by (nonlinear_arith)
                requires
                    m == 0,
            ;
            lemma_rounded_is_nearest(0, 0, 0);
        }
        return 0;
    }
    // The bit length of the significand.
    let mut len: i32 = 0;
    let mut top: u64 = 1;
    proof {
        vstd::arithmetic::power2::lemma2_to64();
    }
    while top <= m
        invariant
            m < 0x4_0000_0000_0000,
            0 <= len <= 50,
            top == vstd::arithmetic::power2::pow2(len as nat),
            len > 0 ==> vstd::arithmetic::power2::pow2((len - 1) as nat) <= m,
        decreases 50 - len,
    {
        proof {
            vstd::arithmetic::power2::lemma2_to64();
            if len == 50 {
                assert(top == 0x4_0000_0000_0000) by {
                    vstd::arithmetic::power2::lemma2_to64_rest();
                }
            }
            vstd::arithmetic::power2::lemma_pow2_unfold((len + 1) as nat);
        }
        top = top * 2;
        len = len + 1;
    }
    // The scale at which twenty-four bits hold the leading ones.
    let u: i32 = if len - 24 + k > 0 {
        len - 24 + k
    } else {
        0
    };
    let s: i32 = u - k;
    let q: u64 = if s <= 0 {
        proof {
            lemma_exact_significand(m as int, k as int, len as int, u as int);
        }
        m * power_of_two((0 - s) as u32)
    } else if s <= 50 {
        let unit: u64 = power_of_two(s as u32);
        let whole: u64 = m / unit;
        let rest: u64 = m % unit;
        let up: bool = rest > unit - rest || (rest == unit - rest && whole % 2 == 1);
        proof {
            lemma_rounded_significand(m as int, k as int, len as int, u as int);
        }
        if up {
            whole + 1
        } else {
            whole
        }
    } else {
        proof {
            lemma_vanishing_significand(m as int, k as int, len as int, u as int);
        }
        0
    };
    proof {
        lemma_rounded_is_nearest(
            m * vstd::arithmetic::power2::pow2((k + 149) as nat),
            u as nat,
            q as int,
        );
    }
    let e: u64 = u as u64 * 0x80_0000 + q;
    if e < INFINITY_BITS as u64 {
        e as u32
    } else {
        INFINITY_BITS
    }
}

/// `2^n`.
fn power_of_two(n: u32) -> (r: u64)
    requires
        n <= 50,
    ensures
        r == vstd::arithmetic::power2::pow2(n as nat),
        1 <= r <= 0x4_0000_0000_0000,
{
    let mut r: u64 = 1;
    let mut i: u32 = 0;
    proof {
        vstd::arithmetic::power2::lemma2_to64();
    }
    while i < n
        invariant
            i <= n <= 50,
            r == vstd::arithmetic::power2::pow2(i as nat),
        decreases n - i,
    {
        proof {
            vstd::arithmetic::power2::lemma_pow2_unfold((i + 1) as nat);
            vstd::arithmetic::power2::lemma_pow2_strictly_increases(i as nat, 50);
            vstd::arithmetic::power2::lemma2_to64_rest();
        }
        r = r * 2;
        i = i + 1;
    }
    proof {
        vstd::arithmetic::power2::lemma_pow2_pos(n as nat);
        if n < 50 {
            vstd::arithmetic::power2::lemma_pow2_strictly_increases(n as nat, 50);
        }
        vstd::arithmetic::power2::lemma2_to64_rest();
    }
    r
}

/// Counting numerator and denominator in a smaller unit changes nothing.
proof fn lemma_nearest_scale(num: int, den: int, c: int, e: int)
    requires
        c > 0,
        nearest(num * c, den * c, e),
    ensures
        nearest(num, den, e),
{
    assert forall|s: int| distance(num * c, den * c, s) == c * #[trigger] distance(num, den, s) by {
        let d = magnitude(s) * den - num;
        let t = magnitude(s) * (den * c) - num * c;
        assert(t == c * d) by (nonlinear_arith)
            requires
                d == magnitude(s) * den - num,
                t == magnitude(s) * (den * c) - num * c,
        ;
        assert(d < 0 <==> t < 0) by (nonlinear_arith)
            requires
                t == c * d,
                c > 0,
        ;
        assert(c * (-d) == -t) by (nonlinear_arith)
            requires
                t == c * d,
        ;
    }
    assert forall|s: int| 0 <= s <= INFINITY_BITS && s != e implies {
        ||| distance(num, den, e) < #[trigger] distance(num, den, s)
        ||| distance(num, den, e) == distance(num, den, s) && e % 2 == 0
    } by {
        let (x, y) = (distance(num, den, e), distance(num, den, s));
        assert(distance(num * c, den * c, e) == c * x);
        assert(distance(num * c, den * c, s) == c * y);
        assert(c * x < c * y ==> x < y) by (nonlinear_arith)
            requires
                c > 0,
        ;
        assert(c * x == c * y ==> x == y) by (nonlinear_arith)
            requires
                c > 0,
        ;
    }
}

/// Adding less than a quarter of a unit is rounded away.
proof fn lemma_absorbed(k: nat, q: int, x: int)
    requires
        0x80_0000 <= q < 0x100_0000,
        0 < k,
        k * 0x80_0000 + q <= INFINITY_BITS,
        0 <= 2 * x < vstd::arithmetic::power2::pow2(k),
    ensures
        nearest(q * vstd::arithmetic::power2::pow2(k) + x, 1, k * 0x80_0000 + q),
{
    let den = vstd::arithmetic::power2::pow2(149) as int;
    let scale = vstd::arithmetic::power2::pow2(k) as int;
    let unit = scale * den;
    let num = (q * scale + x) * den;
    vstd::arithmetic::power2::lemma_pow2_pos(149);
    assert(2 * num == 2 * q * unit + 2 * x * den) by (nonlinear_arith)
        requires
            num == (q * scale + x) * den,
            unit == scale * den,
    ;
    assert(0 <= 2 * x * den < unit) by (nonlinear_arith)
        requires
            0 <= 2 * x < scale,
            unit == scale * den,
            den > 0,
    ;
    assert((2 * q - 1) * unit == 2 * q * unit - unit) by (nonlinear_arith);
    assert((2 * q + 1) * unit == 2 * q * unit + unit) by (nonlinear_arith);
    assert(q * unit + q * unit == 2 * q * unit) by (nonlinear_arith);
    lemma_rounded_is_nearest(num, k, q);
    assert(1 * den == den);
    lemma_nearest_scale(q * scale + x, 1, den, k * 0x80_0000 + q);
}

/// `r` is the correctly rounded sum of two amounts.
pub open spec fn is_sum(a: Weight, b: Weight, r: Weight) -> bool {
    r.amount() && nearest(magnitude(a.unsigned()) + magnitude(b.unsigned()), 1, r.unsigned())
}

/// The correctly rounded sum of two amounts.
pub open spec fn sum(a: Weight, b: Weight) -> Weight {
    choose|r: Weight| is_sum(a, b, r)
}

/// `r` is the correctly rounded product of two numbers.
///
/// A NaN operand, or infinity times zero, gives NaN. Otherwise the signs
/// multiply, infinity stays infinite, and finite magnitudes multiply exactly
/// and are rounded once.
pub open spec fn is_product(a: Weight, b: Weight, r: Weight) -> bool {
    if a.nan() || b.nan() || (!a.finite() && b.unsigned() == 0) || (!b.finite() && a.unsigned()
        == 0) {
        r.bits == NAN_BITS
    } else {
        &&& r.negative() == (a.negative() != b.negative())
        &&& if a.finite() && b.finite() {
            nearest(
                magnitude(a.unsigned()) * magnitude(b.unsigned()),
                vstd::arithmetic::power2::pow2(149) as int,
                r.unsigned(),
            )
        } else {
            r.unsigned() == INFINITY_BITS
        }
    }
}

/// The correctly rounded product of two numbers.
pub open spec fn product(a: Weight, b: Weight) -> Weight {
    choose|r: Weight| is_product(a, b, r)
}

/// Two amounts have only one sum.
pub proof fn lemma_sum_unique(a: Weight, b: Weight, r: Weight)
    requires
        is_sum(a, b, r),
    ensures
        r == sum(a, b),
{
    let t = sum(a, b);
    lemma_nearest_unique(
        magnitude(a.unsigned()) + magnitude(b.unsigned()),
        1,
        r.unsigned(),
        t.unsigned(),
    );
}

proof fn lemma_product_unique(a: Weight, b: Weight, r: Weight)
    requires
        is_product(a, b, r),
    ensures
        r == product(a, b),
{
    let t = product(a, b);
    vstd::arithmetic::power2::lemma_pow2_pos(149);
    if !(a.nan() || b.nan()) && a.finite() && b.finite() {
        lemma_nearest_unique(
            magnitude(a.unsigned()) * magnitude(b.unsigned()),
            vstd::arithmetic::power2::pow2(149) as int,
            r.unsigned(),
            t.unsigned(),
        );
    }
}

/// Rounding keeps the order of the exact values.
pub proof fn lemma_nearest_monotone(low: int, high: int, den: int, a: int, b: int)
    requires
        den > 0,
        low <= high,
        nearest(low, den, a),
        nearest(high, den, b),
    ensures
        a <= b,
{
    if a > b {
        lemma_magnitude_increases(b, a);
        let (x, y) = (magnitude(a) * den, magnitude(b) * den);
        assert(y < x) by (nonlinear_arith)
            requires
                magnitude(b) < magnitude(a),
                den > 0,
                x == magnitude(a) * den,
                y == magnitude(b) * den,
        ;
        assert(distance(low, den, a) <= distance(low, den, b));
        assert(distance(high, den, b) <= distance(high, den, a));
        assert(low == high);
        lemma_nearest_unique(low, den, a, b);
    }
}

/// Of the numbers that are not NaN, the one worth more ranks higher; only the
/// two zeros differ in rank and are worth the same.
pub proof fn lemma_rank_order(a: Weight, b: Weight)
    requires
        !a.nan(),
        !b.nan(),
    ensures
        a.value() < b.value() ==> a.rank() < b.rank(),
        a.value() == b.value() && a != b ==> a.unsigned() == 0 && b.unsigned() == 0,
{
    lemma_magnitude_injective(a.unsigned(), b.unsigned());
}

/// Any two numbers have a product.
pub proof fn lemma_any_product(a: Weight, b: Weight)
    ensures
        is_product(a, b, product(a, b)),
{
    if a.nan() || b.nan() || (!a.finite() && b.unsigned() == 0) || (!b.finite() && a.unsigned()
        == 0) {
        assert(is_product(a, b, Weight { bits: NAN_BITS }));
    } else {
        let e = if a.finite() && b.finite() {
            let num = magnitude(a.unsigned()) * magnitude(b.unsigned());
            let den = vstd::arithmetic::power2::pow2(149) as int;
            vstd::arithmetic::power2::lemma_pow2_pos(149);
            lemma_magnitude_injective(a.unsigned(), b.unsigned());
            assert(0 <= num) by (nonlinear_arith)
                requires
                    0 <= magnitude(a.unsigned()),
                    0 <= magnitude(b.unsigned()),
                    num == magnitude(a.unsigned()) * magnitude(b.unsigned()),
            ;
            lemma_nearest_exists(num, den)
        } else {
            INFINITY_BITS as int
        };
        let r = if a.negative() != b.negative() {
            Weight { bits: (e + 0x8000_0000) as u32 }
        } else {
            Weight { bits: e as u32 }
        };
        assert(r.unsigned() == e);
        assert(is_product(a, b, r));
    }
}

/// Any two finite amounts have a product, which is an amount.
proof fn lemma_product_exists(a: Weight, b: Weight)
    requires
        a.amount() && a.finite(),
        b.amount() && b.finite(),
    ensures
        is_product(a, b, product(a, b)),
        product(a, b).amount(),
{
    let num = magnitude(a.unsigned()) * magnitude(b.unsigned());
    let den = vstd::arithmetic::power2::pow2(149) as int;
    vstd::arithmetic::power2::lemma_pow2_pos(149);
    lemma_magnitude_injective(a.unsigned(), b.unsigned());
    assert(0 <= num) by (nonlinear_arith)
        requires
            0 <= magnitude(a.unsigned()),
            0 <= magnitude(b.unsigned()),
            num == magnitude(a.unsigned()) * magnitude(b.unsigned()),
    ;
    let e = lemma_nearest_exists(num, den);
    assert(is_product(a, b, Weight { bits: e as u32 }));
}

/// Multiplying an amount by more never gives less.
pub proof fn law_product_monotone(w: Weight, low: Weight, high: Weight)
    requires
        w.amount() && w.finite(),
        high.amount() && high.finite(),
        low.bits <= high.bits,
    ensures
        product(w, low).amount(),
        product(w, high).amount(),
        product(w, low).value() <= product(w, high).value(),
{
    let den = vstd::arithmetic::power2::pow2(149) as int;
    let m = magnitude(w.unsigned());
    let (x, y) = (magnitude(low.unsigned()), magnitude(high.unsigned()));
    vstd::arithmetic::power2::lemma_pow2_pos(149);
    lemma_product_exists(w, low);
    lemma_product_exists(w, high);
    lemma_magnitude_injective(w.unsigned(), low.unsigned());
    lemma_magnitude_injective(low.unsigned(), high.unsigned());
    assert(m * x <= m * y) by (nonlinear_arith)
        requires
            0 <= m,
            x <= y,
    ;
    let (a, b) = (product(w, low).unsigned(), product(w, high).unsigned());
    lemma_nearest_monotone(m * x, m * y, den, a, b);
    lemma_magnitude_injective(a, b);
}

/// Multiplying a finite amount by one changes nothing.
pub proof fn law_product_one(w: Weight)
    requires
        w.amount() && w.finite(),
    ensures
        product(w, Weight { bits: ONE_BITS }) == w,
{
    let one = Weight { bits: ONE_BITS };
    let (e, den) = (w.unsigned(), vstd::arithmetic::power2::pow2(149) as int);
    vstd::arithmetic::power2::lemma_pow2_pos(149);
    vstd::arithmetic::power2::lemma2_to64();
    vstd::arithmetic::power2::lemma_pow2_adds(23, 126);
    assert(magnitude(one.unsigned()) == den);
    let num = magnitude(e) * den;
    assert forall|s: int| 0 <= s <= INFINITY_BITS && s != e implies distance(num, den, e)
        < #[trigger] distance(num, den, s) by {
        lemma_magnitude_injective(s, e);
        let d = magnitude(s) * den - num;
        assert(d != 0) by (nonlinear_arith)
            requires
                magnitude(s) != magnitude(e),
                den > 0,
                num == magnitude(e) * den,
                d == magnitude(s) * den - num,
        ;
    }
    lemma_product_unique(w, one, w);
}

/// Any two amounts have a sum.
pub proof fn lemma_sum_exists(a: Weight, b: Weight)
    requires
        a.amount(),
        b.amount(),
    ensures
        is_sum(a, b, sum(a, b)),
{
    let num = magnitude(a.unsigned()) + magnitude(b.unsigned());
    lemma_magnitude_injective(a.unsigned(), b.unsigned());
    let e = lemma_nearest_exists(num, 1);
    assert(is_sum(a, b, Weight { bits: e as u32 }));
}

/// A sum of amounts is no less than either of them.
pub proof fn lemma_sum_grows(a: Weight, b: Weight, r: Weight)
    requires
        a.amount(),
        b.amount(),
        is_sum(a, b, r),
    ensures
        a.bits <= r.bits,
        b.bits <= r.bits,
{
    let (x, y, z) = (a.unsigned(), b.unsigned(), r.unsigned());
    lemma_magnitude_injective(x, z);
    lemma_magnitude_injective(y, z);
    if z < x {
        assert(distance(magnitude(x) + magnitude(y), 1, z) > distance(
            magnitude(x) + magnitude(y),
            1,
            x,
        ));
    }
    if z < y {
        assert(distance(magnitude(x) + magnitude(y), 1, z) > distance(
            magnitude(x) + magnitude(y),
            1,
            y,
        ));
    }
}

/// Significand and exponent of an encoding with the sign bit clear.
fn parts(e: u32) -> (r: (u64, i32))
    requires
        e <= INFINITY_BITS,
    ensures
        0 <= r.1 <= 254,
        r.0 < 0x100_0000,
        r.1 > 0 ==> r.0 >= 0x80_0000,
        e == r.1 * 0x80_0000 + r.0,
        magnitude(e as int) == r.0 * vstd::arithmetic::power2::pow2(r.1 as nat),
{
    if e < 0x80_0000 {
        proof {
            lemma_magnitude_parts(0, e as int);
        }
        (e as u64, 0)
    } else {
        let k: u32 = e / 0x80_0000 - 1;
        let m: u32 = e - k * 0x80_0000;
        proof {
            lemma_magnitude_parts(k as nat, m as int);
        }
        (m as u64, k as i32)
    }
}

/// The correctly rounded sum of two encodings with the sign bit clear.
fn add_amounts(a: u32, b: u32) -> (e: u32)
    requires
        a <= INFINITY_BITS,
        b <= INFINITY_BITS,
    ensures
        nearest(magnitude(a as int) + magnitude(b as int), 1, e as int),
{
    let (hi, lo): (u32, u32) = if a >= b {
        (a, b)
    } else {
        (b, a)
    };
    let (m, k) = parts(hi);
    let (n, j) = parts(lo);
    let ghost x = magnitude(lo as int);
    proof {
        vstd::arithmetic::power2::lemma_pow2_pos(j as nat);
        vstd::arithmetic::power2::lemma_pow2_pos(149);
        vstd::arithmetic::power2::lemma2_to64();
    }
    if k - j > 25 {
        proof {
            vstd::arithmetic::power2::lemma_pow2_adds(25, j as nat);
            vstd::arithmetic::power2::lemma_pow2_strictly_increases((25 + j) as nat, k as nat);
            let p = vstd::arithmetic::power2::pow2(j as nat) as int;
            assert(0 <= 2 * x < 0x200_0000 * p) by (nonlinear_arith)
                requires
                    x == n * p,
                    0 <= n < 0x100_0000,
                    p > 0,
            ;
            lemma_absorbed(k as nat, m as int, x);
        }
        hi
    } else {
        let up: u64 = power_of_two((k - j) as u32);
        proof {
            vstd::arithmetic::power2::lemma_pow2_adds((k - j) as nat, j as nat);
            if k - j < 25 {
                vstd::arithmetic::power2::lemma_pow2_strictly_increases((k - j) as nat, 25);
            }
            assert(0 <= m * up < 0x2_0000_0000_0000) by (nonlinear_arith)
                requires
                    0 <= m < 0x100_0000,
                    1 <= up <= 0x200_0000,
            ;
        }
        let e = round_to_nearest(m * up + n, j);
        proof {
            let p = vstd::arithmetic::power2::pow2(j as nat) as int;
            let den = vstd::arithmetic::power2::pow2(149) as int;
            let exact = magnitude(hi as int) + x;
            vstd::arithmetic::power2::lemma_pow2_adds(j as nat, 149);
            assert((m * up + n) * (p * den) == exact * den) by (nonlinear_arith)
                requires
                    exact == m * (up * p) + n * p,
            ;
            assert(1 * den == den);
            lemma_nearest_scale(exact, 1, den, e as int);
        }
        e
    }
}

impl Weight {
    /// The number with the given encoding.
    pub fn from_bits(bits: u32) -> (r: Weight)
        ensures
            r.bits == bits,
    {
        Weight { bits }
    }

    /// The encoding of this number.
    pub fn to_bits(self) -> (r: u32)
        ensures
            r == self.bits,
    {
        self.bits
    }

    /// True if the number is neither infinite nor NaN.
    pub fn is_finite(self) -> (r: bool)
        ensures
            r == self.finite(),
    {
        self.bits % 0x8000_0000 < INFINITY_BITS
    }

    /// True if this is not a number.
    pub fn is_nan(self) -> (r: bool)
        ensures
            r == self.nan(),
    {
        self.bits % 0x8000_0000 > INFINITY_BITS
    }

    /// Place in the total order of all encodings.
    pub fn order(self) -> (r: i64)
        ensures
            r == self.rank(),
    {
        let e: i64 = (self.bits % 0x8000_0000) as i64;
        if self.bits >= 0x8000_0000 {
            -e - 1
        } else {
            e
        }
    }

    /// True if this number is worth less than the other.
    pub fn less_than(self, other: Weight) -> (r: bool)
        requires
            !self.nan(),
            !other.nan(),
        ensures
            r == (self.value() < other.value()),
    {
        let a: i64 = (self.bits % 0x8000_0000) as i64;
        let b: i64 = (other.bits % 0x8000_0000) as i64;
        let x: i64 = if self.bits >= 0x8000_0000 {
            -a
        } else {
            a
        };
        let y: i64 = if other.bits >= 0x8000_0000 {
            -b
        } else {
            b
        };
        proof {
            lemma_magnitude_injective(a as int, b as int);
        }
        x < y
    }

    /// Add another amount, rounding to nearest, ties to even.
    pub fn plus(self, other: Weight) -> (r: Weight)
        requires
            self.amount(),
            other.amount(),
        ensures
            is_sum(self, other, r),
            r == sum(self, other),
    {
        let r = Weight { bits: add_amounts(self.bits, other.bits) };
        proof {
            lemma_sum_unique(self, other, r);
        }
        r
    }

    /// Multiply, rounding to nearest, ties to even.
    pub fn times(self, other: Weight) -> (r: Weight)
        ensures
            is_product(self, other, r),
            r == product(self, other),
    {
        let a: u32 = self.bits % 0x8000_0000;
        let b: u32 = other.bits % 0x8000_0000;
        let flip: bool = (self.bits >= 0x8000_0000) != (other.bits >= 0x8000_0000);
        let r = if a > INFINITY_BITS || b > INFINITY_BITS || (a == INFINITY_BITS && b == 0) || (b
            == INFINITY_BITS && a == 0) {
            Weight { bits: NAN_BITS }
        } else {
            let e: u32 = if a == INFINITY_BITS || b == INFINITY_BITS {
                INFINITY_BITS
            } else {
                let (m, k) = parts(a);
                let (n, j) = parts(b);
                proof {
                    let p = vstd::arithmetic::power2::pow2(k as nat) as int;
                    let t = vstd::arithmetic::power2::pow2(j as nat) as int;
                    vstd::arithmetic::power2::lemma_pow2_adds(k as nat, j as nat);
                    assert(0 <= m * n < 0x4_0000_0000_0000) by (nonlinear_arith)
                        requires
                            0 <= m < 0x100_0000,
                            0 <= n < 0x100_0000,
                    ;
                    assert((m * p) * (n * t) == (m * n) * (p * t)) by (nonlinear_arith);
                }
                round_to_nearest(m * n, k + j - 149)
            };
            if flip {
                Weight { bits: e + 0x8000_0000 }
            } else {
                Weight { bits: e }
            }
        };
        proof {
            lemma_product_unique(self, other, r);
        }
        r
    }
}

/// An encoding with the exponent field `k + 1` and the fraction `f` is worth
/// its significand times a power of two.
proof fn lemma_magnitude_at(k: nat, f: int)
    requires
        0 <= f < 0x80_0000,
    ensures
        magnitude((k + 1) * 0x80_0000 + f) == (0x80_0000 + f) * vstd::arithmetic::power2::pow2(k),
{
    lemma_magnitude_parts(k, 0x80_0000 + f);
}

/// 1.0 is encoded as it should be: 2^149 units of 2^-149.
pub proof fn law_one()
    ensures
        (Weight { bits: ONE_BITS }).value() == vstd::arithmetic::power2::pow2(149),
        (Weight { bits: ONE_BITS }).finite(),
{
    lemma_magnitude_at(126, 0);
    vstd::arithmetic::power2::lemma2_to64();
    vstd::arithmetic::power2::lemma_pow2_adds(23, 126);
}

/// The number nearest to a hundredth.
pub proof fn lemma_hundredth()
    ensures
        nearest(vstd::arithmetic::power2::pow2(149) as int, 100, 0x3c23_d70a),
{
    vstd::arithmetic::power2::lemma2_to64();
    vstd::arithmetic::power2::lemma_pow2_adds(30, 119);
    vstd::arithmetic::power2::lemma_pow2_pos(119);
    lemma_magnitude_at(119, 0x23_d709);
    lemma_magnitude_at(119, 0x23_d70a);
    lemma_magnitude_at(119, 0x23_d70b);
    lemma_nearest_by_neighbours(vstd::arithmetic::power2::pow2(149) as int, 100, 0x3c23_d70a);
}

/// The number nearest to one and three tenths.
pub proof fn lemma_thirteen_tenths()
    ensures
        nearest((13 * vstd::arithmetic::power2::pow2(149)) as int, 10, 0x3fa6_6666),
{
    vstd::arithmetic::power2::lemma2_to64();
    vstd::arithmetic::power2::lemma_pow2_adds(23, 126);
    vstd::arithmetic::power2::lemma_pow2_pos(126);
    lemma_magnitude_at(126, 0x26_6665);
    lemma_magnitude_at(126, 0x26_6666);
    lemma_magnitude_at(126, 0x26_6667);
    lemma_nearest_by_neighbours((13 * vstd::arithmetic::power2::pow2(149)) as int, 10, 0x3fa6_6666);
}

/// The encodings of two and of ten.
pub proof fn lemma_two_and_ten()
    ensures
        (Weight { bits: 0x4000_0000 }).value() == 2 * vstd::arithmetic::power2::pow2(149),
        (Weight { bits: 0x4120_0000 }).value() == 10 * vstd::arithmetic::power2::pow2(149),
{
    vstd::arithmetic::power2::lemma2_to64();
    vstd::arithmetic::power2::lemma_pow2_adds(23, 126);
    vstd::arithmetic::power2::lemma_pow2_adds(1, 126);
    vstd::arithmetic::power2::lemma_pow2_adds(3, 126);
    lemma_magnitude_at(127, 0);
    lemma_magnitude_at(129, 0x20_0000);
}

/// No amount is closer to the exact sum of two amounts than their sum is.
pub proof fn law_sum_is_closest(a: Weight, b: Weight, r: Weight, s: Weight)
    requires
        a.amount(),
        b.amount(),
        s.amount(),
        is_sum(a, b, r),
    ensures
        r.amount(),
        ({
            let exact = a.value() + b.value();
            let (x, y) = (r.value() - exact, s.value() - exact);
            x * x <= y * y
        }),
{
    let exact = a.value() + b.value();
    let (x, y) = (r.value() - exact, s.value() - exact);
    if r != s {
        assert(distance(exact, 1, r.unsigned()) <= distance(exact, 1, s.unsigned()));
    }
    lemma_squares(x, y);
}

/// No amount is closer to the exact product of two finite amounts than their
/// product is.
pub proof fn law_product_is_closest(a: Weight, b: Weight, r: Weight, s: Weight)
    requires
        a.amount() && a.finite(),
        b.amount() && b.finite(),
        s.amount(),
        is_product(a, b, r),
    ensures
        r.amount(),
        ({
            let unit = vstd::arithmetic::power2::pow2(149);
            let exact = a.value() * b.value();
            let (x, y) = (r.value() * unit - exact, s.value() * unit - exact);
            x * x <= y * y
        }),
{
    let unit = vstd::arithmetic::power2::pow2(149) as int;
    let exact = a.value() * b.value();
    let (x, y) = (r.value() * unit - exact, s.value() * unit - exact);
    if r != s {
        assert(distance(exact, unit, r.unsigned()) <= distance(exact, unit, s.unsigned()));
    }
    lemma_squares(x, y);
}

/// The sign of a product is that of its factors together, and what is not a
/// number has no product.
pub proof fn law_product_sign(a: Weight, b: Weight, r: Weight)
    requires
        is_product(a, b, r),
    ensures
        a.nan() || b.nan() ==> r.nan(),
        !r.nan() ==> (r.negative() <==> a.negative() != b.negative()),
{
}

/// What is closer to zero has the smaller square.
proof fn lemma_squares(x: int, y: int)
    requires
        (if x < 0 {
            -x
        } else {
            x
        }) <= (if y < 0 {
            -y
        } else {
            y
        }),
    ensures
        x * x <= y * y,
{
    let a = if x < 0 {
        -x
    } else {
        x
    };
    let b = if y < 0 {
        -y
    } else {
        y
    };
    assert(a * a == x * x) by (nonlinear_arith)
        requires
            a == x || a == -x,
    ;
    assert(b * b == y * y) by (nonlinear_arith)
        requires
            b == y || b == -y,
    ;
    assert(a * a <= b * b) by (nonlinear_arith)
        requires
            0 <= a <= b,
    ;
}

} // verus!
