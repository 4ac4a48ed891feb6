//! Single-precision numbers as bit patterns, with the comparisons of
//! IEEE-754 proved on the patterns.

use vstd::prelude::*;
use vstd::arithmetic::div_mod::lemma_basic_div;
use vstd::arithmetic::power2::{lemma2_to64, lemma_pow2_strictly_increases, pow2};
use vstd::bits::{lemma_u32_shl_is_mul, lemma_u32_shr_is_div};

verus! {

/// The sign bit of a pattern.
pub const SIGN_MASK: u32 = 0x8000_0000;

/// Exponent and fraction bits of a pattern.
pub const MAGNITUDE_MASK: u32 = 0x7FFF_FFFF;

/// The pattern of positive infinity; a larger magnitude is not a number.
pub const INFINITY_BITS: u32 = 0x7F80_0000;

/// The pattern of one.
pub const ONE_BITS: u32 = 0x3F80_0000;

/// An IEEE-754 single-precision number, held as its 32 bits.
#[derive(Clone, Copy, Debug, PartialEq, Eq, Structural)]
pub struct Scalar {
    pub bits: u32,
}

impl Scalar {
    /// Exponent and fraction read as one unsigned integer.
    pub open spec fn magnitude(self) -> int {
        (self.bits & MAGNITUDE_MASK) as int
    }

    /// Whether the sign bit is set.
    pub open spec fn negative(self) -> bool {
        self.bits & SIGN_MASK != 0
    }

    /// Whether the pattern encodes no number.
    pub open spec fn nan(self) -> bool {
        self.magnitude() > INFINITY_BITS
    }

    /// The place of the encoded number on the number line: for patterns that
    /// encode numbers, `a.rank() < b.rank()` exactly when `a` encodes the
    /// smaller one. Both zeros have rank 0.
    pub open spec fn rank(self) -> int {
        if self.negative() {
            -self.magnitude()
        } else {
            self.magnitude()
        }
    }

    /// `self < other` as IEEE-754 decides it: false when either is not a number.
    pub open spec fn lt(self, other: Scalar) -> bool {
        !self.nan() && !other.nan() && self.rank() < other.rank()
    }

    /// `self >= other` as IEEE-754 decides it: false when either is not a number.
    pub open spec fn ge(self, other: Scalar) -> bool {
        !self.nan() && !other.nan() && self.rank() >= other.rank()
    }

    /// The pattern with the sign bit cleared.
    pub open spec fn magnitude_only(self) -> Scalar {
        Scalar { bits: self.bits & MAGNITUDE_MASK }
    }

    /// The pattern with the sign bit flipped.
    pub open spec fn opposite(self) -> Scalar {
        Scalar { bits: self.bits ^ SIGN_MASK }
    }

    /// The exponent field.
    pub open spec fn exponent(self) -> int {
        ((self.bits >> 23) & 0xFF) as int
    }

    /// The fraction field, with the hidden leading bit of a normal number.
    pub open spec fn significand(self) -> int {
        if self.exponent() == 0 {
            (self.bits & 0x7F_FFFF) as int
        } else {
            (self.bits & 0x7F_FFFF) + 0x80_0000
        }
    }

    /// The whole part of the magnitude. A normal number is its significand
    /// times two to the power of its exponent field less 150; a number with
    /// exponent field zero is below one.
    pub open spec fn whole(self) -> int {
        if self.exponent() >= 150 {
            self.significand() * pow2((self.exponent() - 150) as nat)
        } else {
            self.significand() / (pow2((150 - self.exponent()) as nat) as int)
        }
    }

    /// Whether the number has no fractional part.
    pub open spec fn integral(self) -> bool {
        self.exponent() >= 150 || self.significand() == self.whole() * pow2(
            (150 - self.exponent()) as nat,
        )
    }

    /// The number as a 32-bit integer: rounded toward zero, held to the
    /// integer range, and zero for a pattern that is not a number.
    pub open spec fn truncated(self) -> int {
        if self.nan() {
            0
        } else if self.negative() {
            if self.whole() >= 0x8000_0000 {
                -0x8000_0000
            } else {
                -self.whole()
            }
        } else {
            if self.whole() >= 0x7FFF_FFFF {
                0x7FFF_FFFF
            } else {
                self.whole()
            }
        }
    }

    /// The number as a colour channel: rounded toward zero and held to
    /// `0..=255`.
    pub open spec fn channel(self) -> int {
        if self.truncated() < 0 {
            0
        } else if self.truncated() > 255 {
            255
        } else {
            self.truncated()
        }
    }

    /// The smaller of two numbers. A pattern that is not a number yields to
    /// the other; of two equal numbers the first is kept.
    pub open spec fn minimum(self, other: Scalar) -> Scalar {
        if self.lt(other) {
            self
        } else if other.lt(self) {
            other
        } else if self.nan() {
            other
        } else {
            self
        }
    }

    /// The larger of two numbers. A pattern that is not a number yields to
    /// the other; of two equal numbers the first is kept.
    pub open spec fn maximum(self, other: Scalar) -> Scalar {
        if other.lt(self) {
            self
        } else if self.lt(other) {
            other
        } else if self.nan() {
            other
        } else {
            self
        }
    }

    /// The number held between two bounds: the lower bound if it is below
    /// it, the upper bound if it is above it, else itself. A pattern that is
    /// not a number stays as it is.
    pub open spec fn clamped(self, low: Scalar, high: Scalar) -> Scalar {
        if self.lt(low) {
            low
        } else if high.lt(self) {
            high
        } else {
            self
        }
    }

    /// The number with this pattern.
    pub fn from_bits(bits: u32) -> (s: Scalar)
        ensures
            s.bits == bits,
    {
        Scalar { bits }
    }

    /// The pattern of the number.
    pub fn to_bits(self) -> (bits: u32)
        ensures
            bits == self.bits,
    {
        self.bits
    }

    /// Positive zero.
    pub fn zero() -> (s: Scalar)
        ensures
            s.bits == 0,
            !s.nan(),
            s.rank() == 0,
    {
        assert(0u32 & 0x7FFF_FFFFu32 == 0) by (bit_vector);
        assert(0u32 & 0x8000_0000u32 == 0) by (bit_vector);
        Scalar { bits: 0 }
    }

    /// One.
    pub fn one() -> (s: Scalar)
        ensures
            s.bits == ONE_BITS,
            !s.nan(),
            s.rank() == ONE_BITS,
    {
        assert(0x3F80_0000u32 & 0x7FFF_FFFFu32 == 0x3F80_0000u32) by (bit_vector);
        assert(0x3F80_0000u32 & 0x8000_0000u32 == 0) by (bit_vector);
        Scalar { bits: ONE_BITS }
    }

    /// The number of a colour channel, exactly: the one pattern that is a
    /// number, not negative, without a fractional part, and whose whole
    /// part is `n`.
    pub fn from_u8(n: u8) -> (s: Scalar)
        ensures
            !s.nan(),
            !s.negative(),
            s.integral(),
            s.whole() == n,
            s.truncated() == n,
            s.channel() == n,
    {
        proof {
            lemma2_to64();
        }
        if n == 0 {
            assert(0u32 & 0x7FFF_FFFFu32 == 0) by (bit_vector);
            assert(0u32 & 0x8000_0000u32 == 0) by (bit_vector);
            assert((0u32 >> 23) & 0xFF == 0 && 0u32 & 0x7F_FFFF == 0) by (bit_vector);
            proof {
                vstd::arithmetic::power2::lemma_pow2_pos(150);
                lemma_basic_div(0, pow2(150) as int);
                let zero = Scalar { bits: 0 };
                assert(zero.exponent() == 0);
                assert(zero.whole() == 0);
                assert(zero.whole() * pow2(150) == 0) by (nonlinear_arith)
                    requires
                        zero.whole() == 0,
                ;
            }
            return Scalar { bits: 0 };
        }
        let k: u32 = if n >= 128 {
            7
        } else if n >= 64 {
            6
        } else if n >= 32 {
            5
        } else if n >= 16 {
            4
        } else if n >= 8 {
            3
        } else if n >= 4 {
            2
        } else if n >= 2 {
            1
        } else {
            0
        };
        let wide: u32 = n as u32;
        let shift: u32 = 23 - k;
        assert(k <= 7 && (1u32 << k) <= wide && wide < (2u32 << k)) by (bit_vector)
            requires
                wide == n,
                n >= 1,
                k == if n >= 128 {
                    7u32
                } else if n >= 64 {
                    6u32
                } else if n >= 32 {
                    5u32
                } else if n >= 16 {
                    4u32
                } else if n >= 8 {
                    3u32
                } else if n >= 4 {
                    2u32
                } else if n >= 2 {
                    1u32
                } else {
                    0u32
                },
        ;
        let scaled: u32 = wide << shift;
        let e: u32 = 127 + k;
        let bits: u32 = (e << 23) | (scaled & 0x7F_FFFF);
        assert({
            &&& (bits >> 23) & 0xFF == e
            &&& (bits & 0x7F_FFFF) + 0x80_0000 == scaled
            &&& bits & 0x8000_0000 == 0
            &&& (bits & 0x7FFF_FFFF) <= 0x7F80_0000
        }) by (bit_vector)
            requires
                k <= 7,
                (1u32 << k) <= wide,
                wide < (2u32 << k),
                shift == 23 - k,
                scaled == wide << shift,
                e == 127 + k,
                bits == (e << 23) | (scaled & 0x7F_FFFF),
        ;
        let s = Scalar { bits };
        proof {
            let p = pow2(shift as nat);
            assert(p <= 0x80_0000);
            vstd::arithmetic::power2::lemma_pow2_pos(shift as nat);
            assert(wide * p <= 0xFF * 0x80_0000) by (nonlinear_arith)
                requires
                    wide <= 0xFF,
                    0 < p <= 0x80_0000,
            ;
            lemma_u32_shl_is_mul(wide, shift);
            assert(s.exponent() == 127 + k);
            assert(s.significand() == wide * p);
            assert((150 - s.exponent()) as nat == shift as nat);
            vstd::arithmetic::div_mod::lemma_div_by_multiple(wide as int, p as int);
            assert(s.whole() == n);
        }
        s
    }

    /// Positive infinity, above which no number ranks.
    pub fn infinity() -> (s: Scalar)
        ensures
            s.bits == INFINITY_BITS,
            !s.nan(),
            s.rank() == INFINITY_BITS,
            forall|t: Scalar| !t.nan() ==> t.rank() <= s.rank(),
    {
        assert(0x7F80_0000u32 & 0x7FFF_FFFFu32 == 0x7F80_0000u32) by (bit_vector);
        assert(0x7F80_0000u32 & 0x8000_0000u32 == 0) by (bit_vector);
        Scalar { bits: INFINITY_BITS }
    }

    /// Whether the pattern encodes no number.
    pub fn is_nan(self) -> (r: bool)
        ensures
            r == self.nan(),
    {
        (self.bits & MAGNITUDE_MASK) > INFINITY_BITS
    }

    /// The rank as a machine integer.
    pub fn ordinal(self) -> (r: i64)
        ensures
            r == self.rank(),
            -0x7FFF_FFFF <= r <= 0x7FFF_FFFF,
    {
        let bits: u32 = self.bits;
        let m: u32 = bits & MAGNITUDE_MASK;
        assert(bits & 0x7FFF_FFFFu32 <= 0x7FFF_FFFFu32) by (bit_vector);
        if bits & SIGN_MASK != 0 {
            0 - (m as i64)
        } else {
            m as i64
        }
    }

    /// Whether the number is below the other; false when either is none.
    pub fn less_than(self, other: Scalar) -> (r: bool)
        ensures
            r == self.lt(other),
    {
        !self.is_nan() && !other.is_nan() && self.ordinal() < other.ordinal()
    }

    /// Whether the number is the other or above it; false when either is none.
    pub fn at_least(self, other: Scalar) -> (r: bool)
        ensures
            r == self.ge(other),
    {
        !self.is_nan() && !other.is_nan() && self.ordinal() >= other.ordinal()
    }

    /// The absolute value: the same pattern without its sign.
    pub fn abs(self) -> (r: Scalar)
        ensures
            r == self.magnitude_only(),
            r.nan() == self.nan(),
            r.rank() == self.magnitude(),
    {
        let bits: u32 = self.bits;
        assert((bits & 0x7FFF_FFFFu32) & 0x7FFF_FFFFu32 == bits & 0x7FFF_FFFFu32) by (bit_vector);
        assert((bits & 0x7FFF_FFFFu32) & 0x8000_0000u32 == 0) by (bit_vector);
        Scalar { bits: bits & MAGNITUDE_MASK }
    }

    /// The smaller of two numbers, passing over what is not a number.
    pub fn min(self, other: Scalar) -> (r: Scalar)
        ensures
            r == self.minimum(other),
    {
        if self.less_than(other) {
            self
        } else if other.less_than(self) {
            other
        } else if self.is_nan() {
            other
        } else {
            self
        }
    }

    /// The larger of two numbers, passing over what is not a number.
    pub fn max(self, other: Scalar) -> (r: Scalar)
        ensures
            r == self.maximum(other),
    {
        if other.less_than(self) {
            self
        } else if self.less_than(other) {
            other
        } else if self.is_nan() {
            other
        } else {
            self
        }
    }

    /// Holds the number between two bounds, which are numbers, the lower
    /// not above the upper.
    pub fn clamp(self, low: Scalar, high: Scalar) -> (r: Scalar)
        requires
            !low.nan(),
            !high.nan(),
            !high.lt(low),
        ensures
            r == self.clamped(low, high),
            r.nan() == self.nan(),
            !self.nan() ==> low.rank() <= r.rank() <= high.rank(),
    {
        if self.less_than(low) {
            low
        } else if high.less_than(self) {
            high
        } else {
            self
        }
    }

    /// Holds the number between zero and one, as a blend weight must be.
    pub fn clamp_unit(self) -> (r: Scalar)
        ensures
            r == self.clamped(Scalar { bits: 0 }, Scalar { bits: ONE_BITS }),
            r.nan() == self.nan(),
            !self.nan() ==> 0 <= r.rank() <= ONE_BITS,
    {
        self.clamp(Scalar::zero(), Scalar::one())
    }

    /// Converts to a 32-bit integer, rounding toward zero.
    pub fn to_i32(self) -> (r: i32)
        ensures
            r == self.truncated(),
    {
        let bits: u32 = self.bits;
        if self.is_nan() {
            return 0;
        }
        let e: u32 = (bits >> 23) & 0xFF;
        let f: u32 = bits & 0x7F_FFFF;
        let negative: bool = bits & SIGN_MASK != 0;
        assert(((bits >> 23) & 0xFF) <= 0xFF) by (bit_vector);
        assert((bits & 0x7F_FFFF) < 0x80_0000) by (bit_vector);
        proof {
            lemma2_to64();
        }
        if e < 127 {
            proof {
                let shift = (150 - e) as nat;
                if shift > 24 {
                    lemma_pow2_strictly_increases(24, shift);
                }
                lemma_basic_div(self.significand(), pow2(shift) as int);
            }
            return 0;
        }
        if e >= 158 {
            proof {
                let shift = (e - 150) as nat;
                if shift > 8 {
                    lemma_pow2_strictly_increases(8, shift);
                }
                assert(self.significand() * pow2(shift) >= 0x8000_0000) by (nonlinear_arith)
                    requires
                        self.significand() >= 0x80_0000,
                        pow2(shift) >= 0x100,
                ;
            }
            return if negative {
                i32::MIN
            } else {
                i32::MAX
            };
        }
        let m: u32 = f | 0x80_0000;
        assert(f | 0x80_0000 == f + 0x80_0000) by (bit_vector)
            requires
                f < 0x80_0000,
        ;
        assert(self.exponent() == e);
        assert(self.significand() == m);
        let w: u32 = if e <= 150 {
            let shift: u32 = 150 - e;
            proof {
                lemma_u32_shr_is_div(m, shift);
                assert((m >> shift) == m as nat / pow2(shift as nat));
                if e == 150 {
                    assert(pow2(0) == 1);
                    assert(self.whole() == self.significand() * pow2(0));
                    assert(m as nat / 1 == m);
                } else {
                    assert((150 - self.exponent()) as nat == shift as nat);
                    assert(self.whole() == self.significand() / (pow2(shift as nat) as int));
                }
                assert((m >> shift) == self.whole());
            }
            assert((m >> shift) <= m) by (bit_vector);
            m >> shift
        } else {
            let shift: u32 = e - 150;
            proof {
                assert(pow2(shift as nat) <= 0x80);
                assert(m * pow2(shift as nat) < 0x8000_0000) by (nonlinear_arith)
                    requires
                        m < 0x100_0000,
                        pow2(shift as nat) <= 0x80,
                ;
                lemma_u32_shl_is_mul(m, shift);
                assert((self.exponent() - 150) as nat == shift as nat);
                assert((m << shift) == self.whole());
            }
            m << shift
        };
        assert(w < 0x8000_0000);
        if negative {
            0 - (w as i32)
        } else {
            w as i32
        }
    }

    /// Converts to a colour channel, rounding toward zero.
    pub fn to_u8(self) -> (r: u8)
        ensures
            r == self.channel(),
    {
        let t: i32 = self.to_i32();
        if t < 0 {
            0
        } else if t > 255 {
            255
        } else {
            t as u8
        }
    }
}

/// Changing the sign keeps the magnitude and mirrors the rank; a pattern
/// that is not a number stays one.
pub proof fn lemma_opposite(a: Scalar)
    ensures
        a.opposite().magnitude() == a.magnitude(),
        a.opposite().negative() == !a.negative(),
        a.opposite().nan() == a.nan(),
        a.opposite().rank() == -a.rank(),
        a.opposite().opposite() == a,
{
    let bits: u32 = a.bits;
    assert((bits ^ 0x8000_0000u32) & 0x7FFF_FFFFu32 == bits & 0x7FFF_FFFFu32) by (bit_vector);
    assert(((bits ^ 0x8000_0000u32) & 0x8000_0000u32 != 0) == (bits & 0x8000_0000u32 == 0))
        by (bit_vector);
    assert((bits ^ 0x8000_0000u32) ^ 0x8000_0000u32 == bits) by (bit_vector);
}

/// Rounding toward zero keeps the sign: a number of rank zero or more
/// converts to zero or more, one of rank zero or less to zero or less, and
/// the result is a 32-bit integer.
pub proof fn lemma_truncated_sign(a: Scalar)
    ensures
        -0x8000_0000 <= a.truncated() <= 0x7FFF_FFFF,
        !a.nan() && a.rank() >= 0 ==> a.truncated() >= 0,
        !a.nan() && a.rank() <= 0 ==> a.truncated() <= 0,
{
    let bits: u32 = a.bits;
    assert(a.whole() >= 0) by {
        assert((bits & 0x7F_FFFF) >= 0);
        if a.exponent() >= 150 {
            assert(a.significand() * pow2((a.exponent() - 150) as nat) >= 0) by (nonlinear_arith)
                requires
                    a.significand() >= 0,
            ;
        } else {
            vstd::arithmetic::power2::lemma_pow2_pos((150 - a.exponent()) as nat);
            vstd::arithmetic::div_mod::lemma_div_pos_is_pos(
                a.significand(),
                pow2((150 - a.exponent()) as nat) as int,
            );
        }
    }
    if !a.nan() && a.rank() >= 0 && a.negative() {
        assert(a.magnitude() == 0);
        assert(bits & 0x7FFF_FFFF == 0 ==> (bits >> 23) & 0xFF == 0 && bits & 0x7F_FFFF == 0)
            by (bit_vector);
        assert(a.significand() == 0);
        assert(a.whole() == 0) by {
            lemma2_to64();
            vstd::arithmetic::power2::lemma_pow2_pos(150);
            lemma_basic_div(0, pow2(150) as int);
        }
    }
    if !a.nan() && a.rank() <= 0 && !a.negative() {
        assert(a.magnitude() == 0);
        assert(bits & 0x7FFF_FFFF == 0 ==> (bits >> 23) & 0xFF == 0 && bits & 0x7F_FFFF == 0)
            by (bit_vector);
        assert(a.significand() == 0);
        assert(a.whole() == 0) by {
            lemma2_to64();
            vstd::arithmetic::power2::lemma_pow2_pos(150);
            lemma_basic_div(0, pow2(150) as int);
        }
    }
}

/// A power of two is at least twice every lower power of two.
proof fn lemma_pow2_doubles(low: nat, high: nat)
    requires
        low < high,
    ensures
        pow2(high) >= 2 * pow2(low),
        pow2(low) >= 1,
{
    vstd::arithmetic::power2::lemma_pow2_pos(low);
    vstd::arithmetic::power2::lemma_pow2_unfold(low + 1);
    if low + 1 < high {
        lemma_pow2_strictly_increases(low + 1, high);
    }
}

/// The whole part grows with the magnitude.
pub proof fn lemma_whole_grows(a: Scalar, b: Scalar)
    requires
        a.magnitude() <= b.magnitude(),
    ensures
        0 <= a.whole() <= b.whole(),
{
    let x: u32 = a.bits;
    let y: u32 = b.bits;
    assert((x & 0x7FFF_FFFF) <= (y & 0x7FFF_FFFF) ==> ((x >> 23) & 0xFF) < ((y >> 23) & 0xFF) || (((x
        >> 23) & 0xFF) == ((y >> 23) & 0xFF) && (x & 0x7F_FFFF) <= (y & 0x7F_FFFF)))
        by (bit_vector);
    assert((x & 0x7F_FFFF) < 0x80_0000 && ((x >> 23) & 0xFF) <= 0xFF) by (bit_vector);
    assert((y & 0x7F_FFFF) < 0x80_0000 && ((y >> 23) & 0xFF) <= 0xFF) by (bit_vector);
    let ea = a.exponent();
    let eb = b.exponent();
    let sa = a.significand();
    let sb = b.significand();
    lemma_truncated_sign(a);
    if ea == eb {
        if ea >= 150 {
            vstd::arithmetic::mul::lemma_mul_inequality(sa, sb, pow2((ea - 150) as nat) as int);
        } else {
            vstd::arithmetic::power2::lemma_pow2_pos((150 - ea) as nat);
            vstd::arithmetic::div_mod::lemma_div_is_ordered(
                sa,
                sb,
                pow2((150 - ea) as nat) as int,
            );
        }
    } else {
        assert(sb >= 0x80_0000);
        assert(sa < 0x100_0000);
        if eb >= 150 {
            let pb = pow2((eb - 150) as nat) as int;
            if ea >= 150 {
                let pa = pow2((ea - 150) as nat) as int;
                lemma_pow2_doubles((ea - 150) as nat, (eb - 150) as nat);
                assert(sa * pa <= sb * pb) by (nonlinear_arith)
                    requires
                        0 <= sa < 0x100_0000,
                        sb >= 0x80_0000,
                        pb >= 2 * pa,
                        pa >= 1,
                ;
            } else {
                let da = pow2((150 - ea) as nat) as int;
                lemma_pow2_doubles(0, (150 - ea) as nat);
                vstd::arithmetic::power2::lemma_pow2_pos((eb - 150) as nat);
                lemma2_to64();
                vstd::arithmetic::div_mod::lemma_div_is_ordered_by_denominator(sa, 2, da);
                assert(sa / 2 < 0x80_0000);
                assert(sb * pb >= 0x80_0000) by (nonlinear_arith)
                    requires
                        sb >= 0x80_0000,
                        pb >= 1,
                ;
            }
        } else {
            let da = pow2((150 - ea) as nat) as int;
            let db = pow2((150 - eb) as nat) as int;
            lemma_pow2_doubles((150 - eb) as nat, (150 - ea) as nat);
            vstd::arithmetic::div_mod::lemma_div_is_ordered_by_denominator(sa, 2 * db, da);
            vstd::arithmetic::div_mod::lemma_div_denominator(sa, 2, db);
            assert(sa / 2 <= sb);
            vstd::arithmetic::div_mod::lemma_div_is_ordered(sa / 2, sb, db);
        }
    }
}

/// Rounding toward zero keeps the order of numbers.
pub proof fn lemma_truncated_grows(a: Scalar, b: Scalar)
    requires
        !a.nan(),
        !b.nan(),
        a.rank() <= b.rank(),
    ensures
        a.truncated() <= b.truncated(),
{
    lemma_truncated_sign(a);
    lemma_truncated_sign(b);
    if a.negative() && b.negative() {
        lemma_whole_grows(b, a);
    } else if !a.negative() && !b.negative() {
        lemma_whole_grows(a, b);
    }
}

/// The smaller and the larger of two patterns: one of the two, a number
/// whenever either is, and then not above, or not below, any of the two
/// that is a number.
pub proof fn lemma_minimum_maximum(a: Scalar, b: Scalar)
    ensures
        a.minimum(b) == a || a.minimum(b) == b,
        a.maximum(b) == a || a.maximum(b) == b,
        a.minimum(b).nan() == (a.nan() && b.nan()),
        a.maximum(b).nan() == (a.nan() && b.nan()),
        !a.nan() ==> a.minimum(b).rank() <= a.rank() <= a.maximum(b).rank(),
        !b.nan() ==> a.minimum(b).rank() <= b.rank() <= a.maximum(b).rank(),
{
}

/// Less-than is a strict order: nothing is below itself, no two patterns are
/// below each other, and below carries through a middle pattern.
pub proof fn lemma_lt_strict_order(a: Scalar, b: Scalar, c: Scalar)
    ensures
        !a.lt(a),
        a.lt(b) ==> !b.lt(a),
        a.lt(b) && b.lt(c) ==> a.lt(c),
{
}

/// Of two numbers, exactly one is the case: the first is below the second,
/// or it is at least the second. With a pattern that is not a number,
/// neither.
pub proof fn lemma_lt_ge_exclusive(a: Scalar, b: Scalar)
    ensures
        !(a.lt(b) && a.ge(b)),
        !a.nan() && !b.nan() ==> a.lt(b) || a.ge(b),
        a.nan() || b.nan() ==> !a.lt(b) && !a.ge(b),
{
}

/// Negating both sides turns a comparison round.
pub proof fn lemma_opposite_reverses(a: Scalar, b: Scalar)
    ensures
        a.lt(b) <==> b.opposite().lt(a.opposite()),
{
    lemma_opposite(a);
    lemma_opposite(b);
}

/// Two patterns of one rank and one sign are one pattern: only the two
/// zeros share a rank.
pub proof fn lemma_rank_decides_pattern(a: Scalar, b: Scalar)
    requires
        a.rank() == b.rank(),
        a.negative() == b.negative(),
    ensures
        a == b,
{
    let x: u32 = a.bits;
    let y: u32 = b.bits;
    assert(x & 0x7FFF_FFFFu32 == y & 0x7FFF_FFFFu32 && ((x & 0x8000_0000u32 != 0) == (y
        & 0x8000_0000u32 != 0)) ==> x == y) by (bit_vector);
}

} // verus!
