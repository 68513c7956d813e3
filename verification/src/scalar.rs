//! Single-precision scalars, held as IEEE 754 binary32 bit patterns.
//!
//! A pattern is a sign bit above 31 bits of magnitude code. Codes below
//! `INFINITY_BITS` are finite magnitudes, counted here in units of 2^-149;
//! the code `INFINITY_BITS` is infinity and every larger code is a NaN.
//! Each operation returns the pattern that IEEE 754 asks for under
//! round-to-nearest, ties-to-even: the exact result of the operation,
//! rounded once. Every NaN that an operation produces is `NAN_BITS`.

use vstd::prelude::*;
use vstd::arithmetic::power2::{
    pow2,
    lemma_pow2_adds,
    lemma_pow2_pos,
    lemma_pow2_strictly_increases,
    lemma_pow2_unfold,
    lemma2_to64,
};
use vstd::arithmetic::div_mod::{
    lemma_div_multiples_vanish_quotient,
    lemma_div_is_ordered,
    lemma_div_is_ordered_by_denominator,
};
use vstd::bits::lemma_u64_shr_is_div;
use crate::root::{round_root, round_root_magnitude};
use crate::rounding::{
    lemma_quotient_unique,
    round_magnitude,
    round_ratio,
    shift_left,
    lemma_code_scale,
    lemma_code_absorbs,
    INFINITY_BITS,
};

verus! {

/// The NaN that operations return.
pub const NAN_BITS: u32 = 0x7fc0_0000;

/// Significand of a finite magnitude code: the fraction field, with the
/// hidden bit from the first normal code on.
pub open spec fn significand_of(code: nat) -> nat {
    if code < 0x0080_0000 {
        code
    } else {
        0x0080_0000 + code % 0x0080_0000
    }
}

/// Exponent, in units of 2^-149, of the last place of a finite magnitude
/// code.
pub open spec fn scale_of(code: nat) -> nat {
    if code < 0x0100_0000 {
        0
    } else {
        (code / 0x0080_0000 - 1) as nat
    }
}

/// Value of a finite magnitude code, in units of 2^-149.
pub open spec fn units_of(code: nat) -> nat {
    significand_of(code) * pow2(scale_of(code))
}

/// Pattern of 0.
pub const ZERO_BITS: u32 = 0;

/// Pattern of 1/2.
pub const HALF_BITS: u32 = 0x3f00_0000;

/// Pattern of -1/2.
pub const MINUS_HALF_BITS: u32 = 0xbf00_0000;

/// Pattern of 1.
pub const ONE_BITS: u32 = 0x3f80_0000;

/// Pattern of 2.
pub const TWO_BITS: u32 = 0x4000_0000;

/// Pattern of 4.
pub const FOUR_BITS: u32 = 0x4080_0000;

/// Pattern of 10.
pub const TEN_BITS: u32 = 0x4120_0000;

/// The scalar with the given pattern.
pub open spec fn scalar(bits: u32) -> Scalar {
    Scalar { bits }
}

/// A binary32 number.
#[derive(Clone, Copy, Debug)]
pub struct Scalar {
    pub bits: u32,
}

/// What a pattern stands for.
pub enum Number {
    /// No number. All NaN patterns stand for this.
    Nan,
    /// An infinity.
    Infinity { negative: bool },
    /// A finite number: so many units of 2^-149, under a sign. Zero comes
    /// under both signs.
    Finite { negative: bool, units: nat },
}

impl View for Scalar {
    type V = Number;

    open spec fn view(&self) -> Number {
        if self.nan() {
            Number::Nan
        } else if self.infinite() {
            Number::Infinity { negative: self.negative() }
        } else {
            Number::Finite { negative: self.negative(), units: self.magnitude() }
        }
    }
}

impl Scalar {
    /// The pattern without its sign bit.
    pub open spec fn code(self) -> nat {
        (self.bits % 0x8000_0000) as nat
    }

    /// Whether the sign bit is set.
    pub open spec fn negative(self) -> bool {
        self.bits >= 0x8000_0000
    }

    /// Whether the scalar is no number.
    pub open spec fn nan(self) -> bool {
        self.code() > 0x7f80_0000
    }

    /// Whether the scalar is an infinity.
    pub open spec fn infinite(self) -> bool {
        self.code() == 0x7f80_0000
    }

    /// Whether the scalar is a finite number.
    pub open spec fn finite(self) -> bool {
        self.code() < 0x7f80_0000
    }

    /// Absolute value of a finite scalar, in units of 2^-149.
    pub open spec fn magnitude(self) -> nat
        recommends
            self.finite(),
    {
        units_of(self.code())
    }

    /// Value of a finite scalar, in units of 2^-149.
    pub open spec fn units(self) -> int
        recommends
            self.finite(),
    {
        if self.negative() {
            -(self.magnitude() as int)
        } else {
            self.magnitude() as int
        }
    }

    /// The scalar with the given sign and magnitude code.
    pub open spec fn compose(negative: bool, code: u32) -> Scalar
        recommends
            code < 0x8000_0000,
    {
        Scalar { bits: if negative { (code + 0x8000_0000) as u32 } else { code } }
    }

    /// The NaN that operations return.
    pub open spec fn canonical_nan() -> Scalar {
        Scalar { bits: 0x7fc0_0000 }
    }

    /// The negation: the same magnitude code under the other sign.
    pub open spec fn neg_spec(self) -> Scalar {
        Scalar::compose(!self.negative(), self.code() as u32)
    }

    /// The sum: NaN if a term is NaN or if the two infinities meet;
    /// otherwise the exact sum, rounded. A sum of zero is positive unless
    /// both terms are negative.
    #[verifier::opaque]
    pub open spec fn add_spec(self, other: Scalar) -> Scalar {
        if self.nan() || other.nan() {
            Scalar::canonical_nan()
        } else if self.infinite() {
            if other.infinite() && self.negative() != other.negative() {
                Scalar::canonical_nan()
            } else {
                self
            }
        } else if other.infinite() {
            other
        } else {
            round_signed(self.units() + other.units(), self.negative() && other.negative())
        }
    }

    /// The difference: the sum with the negation.
    pub open spec fn sub_spec(self, other: Scalar) -> Scalar {
        self.add_spec(other.neg_spec())
    }

    /// The product: NaN if a factor is NaN or if zero meets infinity;
    /// otherwise the exact product, rounded, under the product of the signs.
    #[verifier::opaque]
    pub open spec fn mul_spec(self, other: Scalar) -> Scalar {
        let negative = self.negative() != other.negative();
        if self.nan() || other.nan() {
            Scalar::canonical_nan()
        } else if self.infinite() || other.infinite() {
            if self.code() == 0 || other.code() == 0 {
                Scalar::canonical_nan()
            } else {
                Scalar::compose(negative, 0x7f80_0000)
            }
        } else {
            Scalar::compose(
                negative,
                round_magnitude(self.magnitude() * other.magnitude(), pow2(149)),
            )
        }
    }

    /// The quotient: NaN if an operand is NaN, or for zero by zero or
    /// infinity by infinity; infinity for a division by zero or of infinity;
    /// otherwise the exact quotient, rounded, under the product of the signs.
    #[verifier::opaque]
    pub open spec fn div_spec(self, other: Scalar) -> Scalar {
        let negative = self.negative() != other.negative();
        if self.nan() || other.nan() {
            Scalar::canonical_nan()
        } else if self.infinite() {
            if other.infinite() {
                Scalar::canonical_nan()
            } else {
                Scalar::compose(negative, 0x7f80_0000)
            }
        } else if other.infinite() {
            Scalar::compose(negative, 0)
        } else if other.code() == 0 {
            if self.code() == 0 {
                Scalar::canonical_nan()
            } else {
                Scalar::compose(negative, 0x7f80_0000)
            }
        } else {
            Scalar::compose(
                negative,
                round_magnitude(self.magnitude() * pow2(149), other.magnitude()),
            )
        }
    }

    /// The square root: NaN for a NaN and for what lies below zero; a zero
    /// or an infinity is its own root; otherwise the exact root, rounded.
    #[verifier::opaque]
    pub open spec fn sqrt_spec(self) -> Scalar {
        if self.nan() {
            Scalar::canonical_nan()
        } else if self.code() == 0 {
            self
        } else if self.negative() {
            Scalar::canonical_nan()
        } else if self.infinite() {
            self
        } else {
            Scalar::compose(false, round_root_magnitude(self.magnitude() * pow2(149)))
        }
    }

    /// Place of a scalar that is no NaN in the order of the format: the
    /// magnitude code, counted downwards under the sign bit. Both zeros
    /// share the place 0.
    pub open spec fn key(self) -> int {
        if self.negative() {
            -(self.code() as int)
        } else {
            self.code() as int
        }
    }

    /// Equality of numbers: a NaN equals nothing, the two zeros are equal.
    pub open spec fn equals(self, other: Scalar) -> bool {
        !self.nan() && !other.nan() && self.key() == other.key()
    }

    /// Strict order of numbers: a NaN is in no order with anything.
    pub open spec fn lt_spec(self, other: Scalar) -> bool {
        !self.nan() && !other.nan() && self.key() < other.key()
    }

    /// Order of numbers: a NaN is in no order with anything.
    pub open spec fn le_spec(self, other: Scalar) -> bool {
        !self.nan() && !other.nan() && self.key() <= other.key()
    }

    /// The scalar nearest to the whole number `x`.
    #[verifier::opaque]
    pub open spec fn from_int_spec(x: nat) -> Scalar {
        Scalar::compose(false, round_magnitude(x * pow2(149), 1))
    }

    /// The number cut to a byte: its whole part, held to the range of a
    /// byte; 0 for a NaN.
    #[verifier::opaque]
    pub open spec fn to_u8_spec(self) -> u8 {
        if self.nan() || self.negative() {
            0
        } else if self.infinite() {
            255
        } else {
            let whole: nat = self.magnitude() / pow2(149);
            if whole > 255 {
                255
            } else {
                whole as u8
            }
        }
    }

    /// The scalar with the given pattern.
    pub fn from_bits(bits: u32) -> (r: Scalar)
        ensures
            r == scalar(bits),
    {
        Scalar { bits }
    }

    /// The pattern of the scalar.
    pub fn to_bits(self) -> (bits: u32)
        ensures
            bits == self.bits,
    {
        self.bits
    }

    /// The magnitude code.
    fn magnitude_code(self) -> (code: u32)
        ensures
            code == self.code(),
            code < 0x8000_0000,
    {
        self.bits % 0x8000_0000
    }

    /// Whether the sign bit is set.
    fn sign(self) -> (negative: bool)
        ensures
            negative == self.negative(),
    {
        self.bits >= 0x8000_0000
    }

    /// The scalar with the given sign and magnitude code.
    fn pack(negative: bool, code: u32) -> (r: Scalar)
        requires
            code < 0x8000_0000,
        ensures
            r == Scalar::compose(negative, code),
    {
        if negative {
            Scalar { bits: code + 0x8000_0000 }
        } else {
            Scalar { bits: code }
        }
    }

    /// Whether the scalar is no number.
    pub fn is_nan(self) -> (r: bool)
        ensures
            r == self.nan(),
            r == (self@ is Nan),
    {
        self.magnitude_code() > INFINITY_BITS
    }

    /// `-self`.
    pub fn neg(self) -> (r: Scalar)
        ensures
            r == self.neg_spec(),
    {
        Scalar::pack(!self.sign(), self.magnitude_code())
    }

    /// `self + other`, rounded to nearest.
    pub fn add(self, other: Scalar) -> (r: Scalar)
        ensures
            r == self.add_spec(other),
    {
        reveal(Scalar::add_spec);
        let a = self.magnitude_code();
        let b = other.magnitude_code();
        let sa = self.sign();
        let sb = other.sign();
        if a > INFINITY_BITS || b > INFINITY_BITS {
            return Scalar { bits: NAN_BITS };
        }
        if a == INFINITY_BITS {
            if b == INFINITY_BITS && sa != sb {
                return Scalar { bits: NAN_BITS };
            }
            return self;
        }
        if b == INFINITY_BITS {
            return other;
        }
        if a >= b {
            add_ordered(sa, a, sb, b)
        } else {
            add_ordered(sb, b, sa, a)
        }
    }

    /// `self - other`, rounded to nearest.
    pub fn sub(self, other: Scalar) -> (r: Scalar)
        ensures
            r == self.sub_spec(other),
    {
        self.add(other.neg())
    }

    /// The square root of `self`, rounded to nearest.
    pub fn sqrt(self) -> (r: Scalar)
        ensures
            r == self.sqrt_spec(),
    {
        reveal(Scalar::sqrt_spec);
        let a = self.magnitude_code();
        if a > INFINITY_BITS {
            return Scalar { bits: NAN_BITS };
        }
        if a == 0 {
            return self;
        }
        if self.sign() {
            return Scalar { bits: NAN_BITS };
        }
        if a == INFINITY_BITS {
            return self;
        }
        let k = scale(a);
        let mut m: u64 = significand(a);
        let ghost m0 = m;
        let mut sh: u32 = 0;
        proof {
            lemma2_to64();
            assert(m0 * pow2(0) == m0) by (nonlinear_arith)
                requires
                    pow2(0) == 1,
            ;
        }
        while m < 0x0080_0000
            invariant
                0 < m < 0x0100_0000,
                sh <= 23,
                m == m0 * pow2(sh as nat),
                m0 > 0,
                m0 < 0x0080_0000 ==> k == 0,
                m0 >= 0x0080_0000 ==> sh == 0,
                k <= 253,
            decreases 0x0100_0000 - m,
        {
            proof {
                lemma_pow2_unfold((sh + 1) as nat);
                lemma2_to64();
                if sh >= 23 {
                    if sh > 23 {
                        lemma_pow2_strictly_increases(23, sh as nat);
                    }
                    assert(m0 * pow2(sh as nat) >= 0x0080_0000) by (nonlinear_arith)
                        requires
                            m0 > 0,
                            pow2(sh as nat) >= 0x0080_0000,
                    ;
                }
                assert(m0 * pow2((sh + 1) as nat) == 2 * (m0 * pow2(sh as nat)))
                    by (nonlinear_arith)
                    requires
                        pow2((sh + 1) as nat) == 2 * pow2(sh as nat),
                ;
            }
            m = m * 2;
            sh = sh + 1;
        }
        let j = k + 149 - sh;
        proof {
            lemma_pow2_adds(sh as nat, j as nat);
            lemma_pow2_adds(k as nat, 149);
            assert((m as nat) * pow2(j as nat) == self.magnitude() * pow2(149))
                by (nonlinear_arith)
                requires
                    m == m0 * pow2(sh as nat),
                    self.magnitude() == (m0 as nat) * pow2(k as nat),
                    pow2((sh + j) as nat) == pow2(sh as nat) * pow2(j as nat),
                    pow2((k + 149) as nat) == pow2(k as nat) * pow2(149),
                    sh + j == k + 149,
            ;
        }
        Scalar::pack(false, round_root(m, j))
    }

    /// Place in the order of the format, for a scalar that is no NaN.
    fn order_key(self) -> (key: i64)
        ensures
            key == self.key(),
    {
        let a = self.magnitude_code();
        if self.sign() {
            -(a as i64)
        } else {
            a as i64
        }
    }

    /// `self < other`; false if either is a NaN.
    pub fn lt(self, other: Scalar) -> (r: bool)
        ensures
            r == self.lt_spec(other),
    {
        !self.is_nan() && !other.is_nan() && self.order_key() < other.order_key()
    }

    /// `self <= other`; false if either is a NaN.
    pub fn le(self, other: Scalar) -> (r: bool)
        ensures
            r == self.le_spec(other),
    {
        !self.is_nan() && !other.is_nan() && self.order_key() <= other.order_key()
    }

    /// `self > other`; false if either is a NaN.
    pub fn gt(self, other: Scalar) -> (r: bool)
        ensures
            r == other.lt_spec(self),
    {
        other.lt(self)
    }

    /// `self >= other`; false if either is a NaN.
    pub fn ge(self, other: Scalar) -> (r: bool)
        ensures
            r == other.le_spec(self),
    {
        other.le(self)
    }

    /// The scalar of the whole number `x`, which it holds exactly.
    pub fn from_u16(x: u16) -> (r: Scalar)
        ensures
            r == Scalar::from_int_spec(x as nat),
            r@ == (Number::Finite { negative: false, units: (x as nat) * pow2(149) }),
    {
        reveal(Scalar::from_int_spec);
        proof {
            lemma2_to64();
            crate::laws::exact::lemma_from_int_exact(x as nat);
        }
        Scalar::pack(false, round_ratio(x as u64, 1, 149, 0))
    }

    /// The scalar of the whole number `x`, which it holds exactly.
    pub fn from_u8(x: u8) -> (r: Scalar)
        ensures
            r == Scalar::from_int_spec(x as nat),
            r@ == (Number::Finite { negative: false, units: (x as nat) * pow2(149) }),
    {
        Scalar::from_u16(x as u16)
    }

    /// The number cut to a byte: its whole part, held to the range of a byte;
    /// 0 for a NaN.
    pub fn to_u8(self) -> (r: u8)
        ensures
            r == self.to_u8_spec(),
    {
        reveal(Scalar::to_u8_spec);
        let a = self.magnitude_code();
        if a > INFINITY_BITS || self.sign() {
            return 0;
        }
        if a == INFINITY_BITS {
            return 255;
        }
        let k = scale(a);
        let m = significand(a);
        proof {
            lemma2_to64();
            lemma_pow2_pos(149);
            lemma_pow2_pos(k as nat);
        }
        if a >= 0x4380_0000 {
            // 256 and above
            proof {
                lemma_pow2_adds(8, 149);
                lemma_pow2_adds(23, 134);
                if k > 134 {
                    lemma_pow2_strictly_increases(134, k as nat);
                }
                assert(self.magnitude() >= 256 * pow2(149)) by (nonlinear_arith)
                    requires
                        self.magnitude() == m * pow2(k as nat),
                        m >= 0x0080_0000,
                        pow2(k as nat) >= pow2(134),
                        0x0080_0000 * pow2(134) == 256 * pow2(149),
                ;
                lemma_div_is_ordered(
                    (256 * pow2(149)) as int,
                    self.magnitude() as int,
                    pow2(149) as int,
                );
                assert(256 * pow2(149) == pow2(149) * 256) by (nonlinear_arith);
                vstd::arithmetic::div_mod::lemma_div_multiples_vanish(256, pow2(149) as int);
            }
            return 255;
        }
        if a < 0x3f80_0000 {
            // below 1
            proof {
                lemma_pow2_adds(24, 125);
                if k < 125 {
                    lemma_pow2_strictly_increases(k as nat, 125);
                }
                assert(self.magnitude() < pow2(149)) by (nonlinear_arith)
                    requires
                        self.magnitude() == m * pow2(k as nat),
                        m < 0x0100_0000,
                        0 < pow2(k as nat) <= pow2(125),
                        0x0100_0000 * pow2(125) == pow2(149),
                ;
                assert(0 * pow2(149) == 0 && (0 + 1) * pow2(149) == pow2(149)) by (nonlinear_arith);
                lemma_quotient_unique(self.magnitude(), pow2(149), 0);
            }
            return 0;
        }
        let sh: u32 = 149 - k;
        proof {
            lemma_pow2_adds(k as nat, sh as nat);
            lemma_pow2_pos(sh as nat);
            assert(self.magnitude() == pow2(k as nat) * m) by (nonlinear_arith)
                requires
                    self.magnitude() == m * pow2(k as nat),
            ;
            lemma_div_multiples_vanish_quotient(
                pow2(k as nat) as int,
                m as int,
                pow2(sh as nat) as int,
            );
            lemma_u64_shr_is_div(m, sh as u64);
            if sh > 16 {
                lemma_pow2_strictly_increases(16, sh as nat);
            }
            lemma_div_is_ordered_by_denominator(m as int, 0x1_0000, pow2(sh as nat) as int);
            let whole = self.magnitude() / pow2(149);
            assert(pow2(149) == pow2(k as nat) * pow2(sh as nat));
            assert(whole == (m as nat) / pow2(sh as nat));
            assert((m as nat) / 0x1_0000 < 256);
            assert(whole <= 255);
            assert((m >> (sh as u64)) == whole);
        }
        (m >> (sh as u64)) as u8
    }

    /// `self * other`, rounded to nearest.
    pub fn mul(self, other: Scalar) -> (r: Scalar)
        ensures
            r == self.mul_spec(other),
    {
        reveal(Scalar::mul_spec);
        let negative = self.sign() != other.sign();
        let a = self.magnitude_code();
        let b = other.magnitude_code();
        if a > INFINITY_BITS || b > INFINITY_BITS {
            return Scalar { bits: NAN_BITS };
        }
        if a == INFINITY_BITS || b == INFINITY_BITS {
            if a == 0 || b == 0 {
                return Scalar { bits: NAN_BITS };
            }
            return Scalar::pack(negative, INFINITY_BITS);
        }
        let ma = significand(a);
        let ka = scale(a);
        let mb = significand(b);
        let kb = scale(b);
        proof {
            assert(ma * mb < 0x1_0000_0000_0000) by (nonlinear_arith)
                requires
                    ma < 0x0100_0000,
                    mb < 0x0100_0000,
            ;
            lemma_pow2_adds(ka as nat, kb as nat);
            lemma_pow2_adds(23, 126);
            lemma2_to64();
            assert(self.magnitude() * other.magnitude() == ((ma * mb) as nat) * pow2(
                (ka + kb) as nat,
            )) by (nonlinear_arith)
                requires
                    self.magnitude() == (ma as nat) * pow2(ka as nat),
                    other.magnitude() == (mb as nat) * pow2(kb as nat),
                    pow2((ka + kb) as nat) == pow2(ka as nat) * pow2(kb as nat),
            ;
            assert(pow2(149) == (0x0080_0000 as nat) * pow2(126));
        }
        Scalar::pack(negative, round_ratio(ma * mb, 0x0080_0000, ka + kb, 126))
    }

    /// `self / other`, rounded to nearest.
    pub fn div(self, other: Scalar) -> (r: Scalar)
        ensures
            r == self.div_spec(other),
    {
        reveal(Scalar::div_spec);
        let negative = self.sign() != other.sign();
        let a = self.magnitude_code();
        let b = other.magnitude_code();
        if a > INFINITY_BITS || b > INFINITY_BITS {
            return Scalar { bits: NAN_BITS };
        }
        if a == INFINITY_BITS {
            if b == INFINITY_BITS {
                return Scalar { bits: NAN_BITS };
            }
            return Scalar::pack(negative, INFINITY_BITS);
        }
        if b == INFINITY_BITS {
            return Scalar::pack(negative, 0);
        }
        if b == 0 {
            if a == 0 {
                return Scalar { bits: NAN_BITS };
            }
            return Scalar::pack(negative, INFINITY_BITS);
        }
        let ma = significand(a);
        let ka = scale(a);
        let mb = significand(b);
        let kb = scale(b);
        proof {
            lemma_pow2_adds(23, 126);
            lemma_pow2_adds(ka as nat, 149);
            lemma_pow2_adds(126, ka as nat);
            lemma_pow2_adds(23, (126 + ka) as nat);
            lemma2_to64();
            assert(self.magnitude() * pow2(149) == ((ma * 0x0080_0000) as nat) * pow2(
                (ka + 126) as nat,
            )) by (nonlinear_arith)
                requires
                    self.magnitude() == (ma as nat) * pow2(ka as nat),
                    pow2(149) == 0x0080_0000 * pow2(126),
                    pow2((ka + 126) as nat) == pow2(126) * pow2(ka as nat),
            ;
        }
        Scalar::pack(negative, round_ratio(ma * 0x0080_0000, mb, ka + 126, kb))
    }
}

/// Value, in units of 2^-149, of the finite number with the given sign and
/// magnitude code.
pub open spec fn signed_units(negative: bool, code: nat) -> int {
    if negative {
        -(units_of(code) as int)
    } else {
        units_of(code) as int
    }
}

/// The scalar nearest to `s` units; a zero takes the given sign.
pub open spec fn round_signed(s: int, zero_negative: bool) -> Scalar {
    if s == 0 {
        Scalar::compose(zero_negative, 0)
    } else if s > 0 {
        Scalar::compose(false, round_magnitude(s as nat, 1))
    } else {
        Scalar::compose(true, round_magnitude((-s) as nat, 1))
    }
}

/// The two magnitudes `ma * 2^g` and `mb`, added or subtracted.
pub open spec fn aligned_total(ma: nat, mb: nat, g: nat, minus: bool) -> int {
    if minus {
        ma * pow2(g) - mb
    } else {
        (ma * pow2(g) + mb) as int
    }
}

/// Of two finite codes in order, the larger has the larger scale, and its
/// significand, brought to the scale of the smaller, is the larger one.
pub proof fn lemma_ordered_codes(a: nat, b: nat)
    requires
        b <= a,
    ensures
        scale_of(b) <= scale_of(a),
        significand_of(b) <= significand_of(a) * pow2((scale_of(a) - scale_of(b)) as nat),
        b < a ==> significand_of(b) < significand_of(a) * pow2(
            (scale_of(a) - scale_of(b)) as nat,
        ),
        units_of(a) == (significand_of(a) * pow2((scale_of(a) - scale_of(b)) as nat)) * pow2(
            scale_of(b),
        ),
        scale_of(a) > 0 ==> a == significand_of(a) + scale_of(a) * 0x0080_0000,
{
    let g = (scale_of(a) - scale_of(b)) as nat;
    let ma = significand_of(a);
    let mb = significand_of(b);
    lemma2_to64();
    lemma_pow2_adds(g, scale_of(b));
    assert((ma * pow2(g)) * pow2(scale_of(b)) == ma * pow2(scale_of(a))) by (nonlinear_arith)
        requires
            pow2(scale_of(a)) == pow2(g) * pow2(scale_of(b)),
    ;
    if g == 0 {
        assert(ma * pow2(0) == ma) by (nonlinear_arith)
            requires
                pow2(0) == 1,
        ;
    } else {
        lemma_pow2_unfold(g);
        lemma_pow2_pos((g - 1) as nat);
        assert(ma * pow2(g) >= 0x0100_0000) by (nonlinear_arith)
            requires
                ma >= 0x0080_0000,
                pow2(g) >= 2,
        ;
    }
}

/// A larger magnitude code is a larger magnitude: the order of the codes is
/// the order of the values.
pub proof fn lemma_units_increase(a: nat, b: nat)
    requires
        b < a,
    ensures
        units_of(b) < units_of(a),
{
    lemma_ordered_codes(a, b);
    let g = (scale_of(a) - scale_of(b)) as nat;
    let wide = significand_of(a) * pow2(g);
    let pk = pow2(scale_of(b));
    lemma_pow2_pos(scale_of(b));
    assert(significand_of(b) * pk < wide * pk) by (nonlinear_arith)
        requires
            significand_of(b) < wide,
            pk > 0,
    ;
}

/// The exact sum of two finite numbers in order is the aligned total of
/// their significands, at the scale of the smaller and under the sign of the
/// larger.
proof fn lemma_sum_of_ordered(sa: bool, a: nat, sb: bool, b: nat)
    requires
        b <= a < 0x7f80_0000,
    ensures
        ({
            let g = (scale_of(a) - scale_of(b)) as nat;
            let total = aligned_total(significand_of(a), significand_of(b), g, sa != sb);
            &&& total >= 0
            &&& round_signed(signed_units(sa, a) + signed_units(sb, b), sa && sb) == (if total
                == 0 {
                Scalar::compose(sa && sb, 0)
            } else {
                Scalar::compose(sa, round_magnitude((total * pow2(scale_of(b))) as nat, 1))
            })
        }),
{
    lemma_ordered_codes(a, b);
    let g = (scale_of(a) - scale_of(b)) as nat;
    let pk = pow2(scale_of(b));
    let wide = significand_of(a) * pow2(g);
    let mb = significand_of(b);
    let total = aligned_total(significand_of(a), mb, g, sa != sb);
    lemma_pow2_pos(scale_of(b));
    assert(units_of(a) == wide * pk);
    assert(units_of(b) == mb * pk);
    assert(total * pk == (if sa != sb {
        wide * pk - mb * pk
    } else {
        (wide * pk + mb * pk) as int
    })) by (nonlinear_arith)
        requires
            total == (if sa != sb {
                wide - mb
            } else {
                (wide + mb) as int
            }),
    ;
    assert(total > 0 ==> total * pk > 0) by (nonlinear_arith)
        requires
            pk > 0,
    ;
    assert(total == 0 ==> total * pk == 0) by (nonlinear_arith);
}

/// A common power of two above and below the line changes no rounding.
proof fn lemma_prescaled(n: nat, g: nat, k: nat)
    ensures
        round_magnitude(n * pow2(k + g), pow2(g) * pow2(0)) == round_magnitude(n * pow2(k), 1),
{
    lemma2_to64();
    lemma_pow2_pos(g);
    lemma_pow2_adds(g, k);
    assert(n * pow2(k + g) == pow2(g) * (n * pow2(k))) by (nonlinear_arith)
        requires
            pow2(g + k) == pow2(g) * pow2(k),
    ;
    assert(pow2(g) * pow2(0) == pow2(g) * 1) by (nonlinear_arith)
        requires
            pow2(0) == 1,
    ;
    lemma_code_scale(n * pow2(k), 1, pow2(g));
}

/// Sum of two finite numbers, each given by sign and magnitude code, the
/// first being at least as large in magnitude as the second.
fn add_ordered(sa: bool, a: u32, sb: bool, b: u32) -> (r: Scalar)
    requires
        b <= a < 0x7f80_0000,
    ensures
        r == round_signed(signed_units(sa, a as nat) + signed_units(sb, b as nat), sa && sb),
{
    let ma = significand(a);
    let ka = scale(a);
    let mb = significand(b);
    let kb = scale(b);
    proof {
        lemma_ordered_codes(a as nat, b as nat);
        lemma_sum_of_ordered(sa, a as nat, sb, b as nat);
    }
    let g = ka - kb;
    if g > 31 {
        proof {
            lemma_code_absorbs(ma as nat, mb as nat, g as nat, kb as nat, sa != sb);
        }
        return Scalar::pack(sa, a);
    }
    proof {
        if g < 31 {
            lemma_pow2_strictly_increases(g as nat, 31);
        }
        lemma2_to64();
        lemma_pow2_pos(g as nat);
        assert(ma * pow2(g as nat) < 0x0080_0000_0000_0000) by (nonlinear_arith)
            requires
                ma < 0x0100_0000,
                pow2(g as nat) <= 0x8000_0000,
        ;
        assert(1 * pow2(g as nat) == pow2(g as nat)) by (nonlinear_arith);
    }
    let wide: u64 = shift_left(ma, g as u64);
    let d: u64 = shift_left(1, g as u64);
    let n: u64 = if sa != sb {
        wide - mb
    } else {
        wide + mb
    };
    if n == 0 {
        return Scalar::pack(sa && sb, 0);
    }
    proof {
        lemma_prescaled(n as nat, g as nat, kb as nat);
    }
    Scalar::pack(sa, round_ratio(n, d, kb + g, 0))
}

impl PartialEq for Scalar {
    /// Equality of numbers: a NaN equals nothing, the two zeros are equal.
    fn eq(&self, other: &Scalar) -> (r: bool) {
        !self.is_nan() && !other.is_nan() && self.order_key() == other.order_key()
    }
}

impl vstd::std_specs::cmp::PartialEqSpecImpl for Scalar {
    open spec fn obeys_eq_spec() -> bool {
        true
    }

    open spec fn eq_spec(&self, other: &Scalar) -> bool {
        self.equals(*other)
    }
}

/// Significand of a finite magnitude code.
fn significand(code: u32) -> (m: u64)
    requires
        code < 0x7f80_0000,
    ensures
        m == significand_of(code as nat),
        m < 0x0100_0000,
        code != 0 ==> m > 0,
{
    if code < 0x0080_0000 {
        code as u64
    } else {
        0x0080_0000 + (code % 0x0080_0000) as u64
    }
}

/// Exponent of the last place of a finite magnitude code.
fn scale(code: u32) -> (k: u32)
    requires
        code < 0x7f80_0000,
    ensures
        k == scale_of(code as nat),
        k <= 253,
{
    if code < 0x0100_0000 {
        0
    } else {
        code / 0x0080_0000 - 1
    }
}

} // verus!
