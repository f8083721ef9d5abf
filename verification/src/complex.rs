//! Complex amplitudes.
//!
//! An amplitude is a `num_complex::Complex64`. The type is opaque to the proofs: every
//! operation on it goes through one of the functions below, and each result has a name
//! (`complex_add`, `complex_mul`, ...) in which the contracts of the library are written.
//!
//! The names stand for IEEE 754 double precision results, which the operands alone
//! determine. As usual for that arithmetic, the payload of a NaN is not part of a value:
//! all NaNs count as one.
//!
//! A real number is carried as a complex number whose imaginary part is zero. The functions
//! whose names begin with `real_` read the real parts of their operands only.
//!
//! The last digits of sines, cosines and `hypot` differ between platforms. What they can come
//! out as is therefore a relation between argument and result (`may_be_cis`, `may_be_norm`),
//! which need not fix the result.

use num_complex::Complex64;
use vstd::prelude::*;

verus! {

/// The complex number type of the `num_complex` crate, opaque to the proofs.
#[verifier::external_type_specification]
#[verifier::external_body]
#[verifier::reject_recursive_types(T)]
pub struct ExComplex<T>(num_complex::Complex<T>);

/// The complex number with the integer parts `re` and `im`.
pub uninterp spec fn complex_of(re: int, im: int) -> Complex64;

/// The sum of two complex numbers.
pub uninterp spec fn complex_add(a: Complex64, b: Complex64) -> Complex64;

/// The difference of two complex numbers.
pub uninterp spec fn complex_sub(a: Complex64, b: Complex64) -> Complex64;

/// The product of two complex numbers.
pub uninterp spec fn complex_mul(a: Complex64, b: Complex64) -> Complex64;

/// The quotient of two complex numbers.
pub uninterp spec fn complex_div(a: Complex64, b: Complex64) -> Complex64;

/// The negated complex number.
pub uninterp spec fn complex_neg(a: Complex64) -> Complex64;

/// The complex conjugate.
pub uninterp spec fn complex_conj(a: Complex64) -> Complex64;

/// Both parts of `a`, divided by the real part of `b`.
pub uninterp spec fn complex_unscale(a: Complex64, b: Complex64) -> Complex64;

/// Whether the parts of two complex numbers compare equal as numbers.
pub uninterp spec fn complex_same(a: Complex64, b: Complex64) -> bool;

/// The squared modulus, as a real number.
pub uninterp spec fn complex_norm_sqr(a: Complex64) -> Complex64;

/// The sum of the moduli of the two parts, as a real number.
pub uninterp spec fn complex_l1(a: Complex64) -> Complex64;

/// The complex number whose parts are the real parts of `a` and of `b`.
pub uninterp spec fn complex_join(a: Complex64, b: Complex64) -> Complex64;

/// The imaginary part, as a real number.
pub uninterp spec fn real_imag(a: Complex64) -> Complex64;

/// The product of two real numbers.
pub uninterp spec fn real_mul(a: Complex64, b: Complex64) -> Complex64;

/// The quotient of two real numbers.
pub uninterp spec fn real_div(a: Complex64, b: Complex64) -> Complex64;

/// The square root of a real number.
pub uninterp spec fn real_sqrt(a: Complex64) -> Complex64;

/// Whether one real number is less than another; false where one is a NaN.
pub uninterp spec fn real_less(a: Complex64, b: Complex64) -> bool;

/// Whether both parts are finite.
pub uninterp spec fn complex_finite(a: Complex64) -> bool;

/// Whether `value` can be what the cosine and the sine of an angle come out as.
pub uninterp spec fn may_be_cis(angle: Complex64, value: Complex64) -> bool;

/// Whether `value` can be what the modulus of a number comes out as.
pub uninterp spec fn may_be_norm(a: Complex64, value: Complex64) -> bool;

/// Whether one real number is at most another; false where one is a NaN.
pub uninterp spec fn real_at_most(a: Complex64, b: Complex64) -> bool;

/// The number zero.
pub open spec fn complex_zero() -> Complex64 {
    complex_of(0, 0)
}

/// The number one.
pub open spec fn complex_one() -> Complex64 {
    complex_of(1, 0)
}

/// Whether a number is zero or one.
pub open spec fn is_zero_or_one(a: Complex64) -> bool {
    a == complex_zero() || a == complex_one()
}

/// `num_complex::c64` on integers: the parts are exactly `re` and `im`, since every `i32`
/// is a double precision number. A real part that is not negative is not below zero.
#[verifier::external_body]
pub(crate) fn integer_complex(re: i32, im: i32) -> (r: Complex64)
    ensures
        r == complex_of(re as int, im as int),
        re >= 0 ==> !real_less(r, complex_of(0, 0)),
{
    num_complex::c64(re, im)
}

/// `Complex64 + Complex64`: the result is a function of the operands. Rounding is monotonic, so
/// that adding a real part that is not below zero leads to nothing smaller: what the sum is
/// below, `a` is below. Zero and one are not changed by adding zero.
#[verifier::external_body]
pub(crate) fn add_complex(a: Complex64, b: Complex64) -> (r: Complex64)
    ensures
        r == complex_add(a, b),
        a == complex_zero() && is_zero_or_one(b) ==> r == b,
        is_zero_or_one(a) && b == complex_zero() ==> r == a,
        !real_less(b, complex_zero()) ==> forall|x: Complex64|
            real_less(r, x) ==> #[trigger] real_less(a, x),
{
    a + b
}

/// `Complex64 - Complex64`: the result is a function of the operands. One less one is zero.
#[verifier::external_body]
pub(crate) fn sub_complex(a: Complex64, b: Complex64) -> (r: Complex64)
    ensures
        r == complex_sub(a, b),
        a == complex_one() && b == complex_one() ==> r == complex_zero(),
{
    a - b
}

/// `Complex64 * Complex64`: the result is a function of the operands, whose order does not
/// matter: each part is a sum of two products, and both operations commute. Products of zeros
/// and ones are exact.
#[verifier::external_body]
pub(crate) fn mul_complex(a: Complex64, b: Complex64) -> (r: Complex64)
    ensures
        r == complex_mul(a, b),
        r == complex_mul(b, a),
        a == complex_one() && is_zero_or_one(b) ==> r == b,
        a == complex_zero() && is_zero_or_one(b) ==> r == complex_zero(),
{
    a * b
}

/// `Complex64 / Complex64`: the result is a function of the operands. A zero divisor gives
/// infinities or NaNs and no panic.
#[verifier::external_body]
pub(crate) fn div_complex(a: Complex64, b: Complex64) -> (r: Complex64)
    ensures
        r == complex_div(a, b),
{
    a / b
}

/// `-Complex64`: the result is a function of the operand. Both signs are flipped, so that
/// negating the result gives the operand back.
#[verifier::external_body]
pub(crate) fn neg_complex(a: Complex64) -> (r: Complex64)
    ensures
        r == complex_neg(a),
        complex_neg(r) == a,
{
    -a
}

/// `Complex64::conj`: the result is a function of the operand.
#[verifier::external_body]
pub(crate) fn conj_complex(a: Complex64) -> (r: Complex64)
    ensures
        r == complex_conj(a),
{
    a.conj()
}

/// `Complex64::unscale` by the real part of `b`: the result is a function of the operands.
#[verifier::external_body]
pub(crate) fn unscale_complex(a: Complex64, b: Complex64) -> (r: Complex64)
    ensures
        r == complex_unscale(a, b),
{
    a.unscale(b.re)
}

/// `Complex64 == Complex64`, which compares the parts as numbers.
#[verifier::external_body]
pub(crate) fn same_complex(a: Complex64, b: Complex64) -> (r: bool)
    ensures
        r == complex_same(a, b),
{
    a == b
}

/// `Complex64::norm_sqr`: the result is a function of the operand. It is a sum of squares: not
/// below zero, and no negative zero, so that adding it to zero gives it back.
#[verifier::external_body]
pub(crate) fn norm_sqr_complex(a: Complex64) -> (r: Complex64)
    ensures
        r == complex_norm_sqr(a),
        !real_less(r, complex_zero()),
        complex_add(complex_zero(), r) == r,
{
    Complex64::from(a.norm_sqr())
}

/// `Complex64::l1_norm`: the result is a function of the operand.
#[verifier::external_body]
pub(crate) fn l1_complex(a: Complex64) -> (r: Complex64)
    ensures
        r == complex_l1(a),
{
    Complex64::from(a.l1_norm())
}

/// `Complex64::new` on the real parts of `a` and of `b`.
#[verifier::external_body]
pub(crate) fn join_complex(a: Complex64, b: Complex64) -> (r: Complex64)
    ensures
        r == complex_join(a, b),
{
    Complex64::new(a.re, b.re)
}

/// The imaginary part, made a complex number by `Complex64::from`.
#[verifier::external_body]
pub(crate) fn imag_real(a: Complex64) -> (r: Complex64)
    ensures
        r == real_imag(a),
{
    Complex64::from(a.im)
}

/// The product of the real parts: a function of the operands.
#[verifier::external_body]
pub(crate) fn mul_real(a: Complex64, b: Complex64) -> (r: Complex64)
    ensures
        r == real_mul(a, b),
{
    Complex64::from(a.re * b.re)
}

/// The quotient of the real parts: a function of the operands. A zero divisor gives an
/// infinity or a NaN and no panic. One over a power of ten of up to 22 digits is above zero.
#[verifier::external_body]
pub(crate) fn div_real(a: Complex64, b: Complex64) -> (r: Complex64)
    ensures
        r == real_div(a, b),
        forall|digits: nat|
            a == complex_one() && digits <= 22 && b == #[trigger] ten_power(digits) ==> real_less(
                complex_zero(),
                r,
            ),
{
    Complex64::from(a.re / b.re)
}

/// The square root of the real part, which IEEE 754 rounds correctly, so that it is a
/// function of the operand. Of a negative number it is a NaN.
#[verifier::external_body]
pub(crate) fn sqrt_real(a: Complex64) -> (r: Complex64)
    ensures
        r == real_sqrt(a),
{
    Complex64::from(a.re.sqrt())
}

/// The comparison `<` of the real parts; false where one of them is a NaN.
#[verifier::external_body]
pub(crate) fn less_real(a: Complex64, b: Complex64) -> (r: bool)
    ensures
        r == real_less(a, b),
{
    a.re < b.re
}

/// The comparison `<=` of the real parts; false where one of them is a NaN.
#[verifier::external_body]
pub(crate) fn at_most_real(a: Complex64, b: Complex64) -> (r: bool)
    ensures
        r == real_at_most(a, b),
{
    a.re <= b.re
}

/// `Complex64::is_finite`: whether neither part is infinite or a NaN.
#[verifier::external_body]
pub(crate) fn finite_complex(a: Complex64) -> (r: bool)
    ensures
        r == complex_finite(a),
{
    a.is_finite()
}

/// `Complex64::cis` of the real part: the cosine and the sine of an angle. The result is one
/// that the angle can give; its last digits depend on the platform, so that the angle does not
/// fix it.
#[verifier::external_body]
pub(crate) fn cis_complex(angle: Complex64) -> (r: Complex64)
    ensures
        may_be_cis(angle, r),
{
    Complex64::cis(angle.re)
}

/// `Complex64::norm`, the modulus by way of `hypot`. The result is one that the number can
/// give; its last digits depend on the platform, so that the number does not fix it. That of
/// zero is zero.
#[verifier::external_body]
pub(crate) fn norm_complex(a: Complex64) -> (r: Complex64)
    ensures
        may_be_norm(a, r),
        a == complex_zero() ==> r == complex_zero(),
{
    Complex64::from(a.norm())
}

/// The number zero.
pub fn zero() -> (r: Complex64)
    ensures
        r == complex_zero(),
        !real_less(r, complex_zero()),
{
    integer_complex(0, 0)
}

/// The number one.
pub fn one() -> (r: Complex64)
    ensures
        r == complex_one(),
{
    integer_complex(1, 0)
}

/// The larger of two real numbers; the other one where one is a NaN.
pub open spec fn real_max(a: Complex64, b: Complex64) -> Complex64 {
    if real_less(b, a) || !real_at_most(b, b) {
        a
    } else {
        b
    }
}

/// Ten to the power of `digits`.
pub open spec fn ten_power(digits: nat) -> Complex64
    decreases digits,
{
    if digits == 0 {
        complex_one()
    } else {
        real_mul(ten_power((digits - 1) as nat), complex_of(10, 0))
    }
}

/// One over ten to the power of `digits`.
pub open spec fn tiny(digits: nat) -> Complex64 {
    real_div(complex_one(), ten_power(digits))
}

/// The larger of two real numbers; the other one where one is a NaN.
pub(crate) fn larger_real(a: Complex64, b: Complex64) -> (r: Complex64)
    ensures
        r == real_max(a, b),
{
    if less_real(b, a) || !at_most_real(b, b) {
        a
    } else {
        b
    }
}

/// One over ten to the power of `digits`: `0.1`, `0.01` and so on. The power is exact up to
/// 22 digits, so that the quotient is the number closest to the decimal fraction.
pub(crate) fn tiny_real(digits: u32) -> (r: Complex64)
    ensures
        r == tiny(digits as nat),
        digits <= 22 ==> real_less(complex_zero(), r),
{
    let mut power: Complex64 = one();
    let mut i: u32 = 0;
    while i < digits
        invariant
            i <= digits,
            power == ten_power(i as nat),
        decreases digits - i,
    {
        power = mul_real(power, integer_complex(10, 0));
        i = i + 1;
    }
    div_real(one(), power)
}

} // verus!
