//! Trusted bindings to `num_complex` for double-precision complex scalars.
//!
//! The verified transform logic moves `num_complex::Complex64` values around
//! as opaque scalars. Each arithmetic step the algorithm takes is one call
//! into `num_complex` (or into the floating-point functions it builds on),
//! made behind a small trusted wrapper. The wrapper's result is given a name
//! by an uninterpreted spec function — floating-point results cannot be
//! restated here — and every contract of the library speaks of those names,
//! so the exact data flow of the algorithm is pinned down even though the
//! scalar arithmetic itself is taken on trust.

use vstd::prelude::*;

verus! {

#[verifier::external_type_specification]
#[verifier::external_body]
#[verifier::reject_recursive_types(T)]
pub struct ExComplex<T>(num_complex::Complex<T>);

/// The complex sum `a + b`.
pub uninterp spec fn sum_of(
    a: num_complex::Complex64,
    b: num_complex::Complex64,
) -> num_complex::Complex64;

/// The complex difference `a - b`.
pub uninterp spec fn diff_of(
    a: num_complex::Complex64,
    b: num_complex::Complex64,
) -> num_complex::Complex64;

/// The complex product `a * b`.
pub uninterp spec fn prod_of(
    a: num_complex::Complex64,
    b: num_complex::Complex64,
) -> num_complex::Complex64;

/// The complex conjugate of `a`.
pub uninterp spec fn conj_of(a: num_complex::Complex64) -> num_complex::Complex64;

/// Both parts of `a` divided by the real scalar `n`.
pub uninterp spec fn unscaled_by(a: num_complex::Complex64, n: int) -> num_complex::Complex64;

/// The value whose real part is `re(a) + im(a)` and whose imaginary part is
/// `re(a) - im(a)`: the mix of the two purely real spectrum bins packed into
/// slot zero by the real transform.
pub uninterp spec fn dc_mix_of(a: num_complex::Complex64) -> num_complex::Complex64;

/// The real part of `a` as a complex value with zero imaginary part.
pub uninterp spec fn re_part_of(a: num_complex::Complex64) -> num_complex::Complex64;

/// The imaginary part of `a` as a complex value with zero imaginary part.
pub uninterp spec fn im_part_of(a: num_complex::Complex64) -> num_complex::Complex64;

/// The imaginary unit `i`, or `-i` when `negated` is set.
pub uninterp spec fn imag_unit(negated: bool) -> num_complex::Complex64;

/// The stage multiplier of the twiddle-factor recurrence for a butterfly
/// stage of width `step`: `(-2 sin^2(theta / 2), sign * sin(theta))` with
/// `theta = pi / step`, the sign negative exactly when `forward` is set.
pub uninterp spec fn stage_multiplier_of(step: int, forward: bool) -> num_complex::Complex64;

/// The multiplicative unit `1 + 0i`, the first twiddle factor of the stage
/// of width `step` (it is the same value for every stage).
pub uninterp spec fn unit_factor(step: int) -> num_complex::Complex64;

/// Relies on `Add for num_complex::Complex64`: componentwise addition.
#[verifier::external_body]
pub(crate) fn c_add(
    a: num_complex::Complex64,
    b: num_complex::Complex64,
) -> (r: num_complex::Complex64)
    ensures
        r == sum_of(a, b),
{
    a + b
}

/// Relies on `Sub for num_complex::Complex64`: componentwise subtraction.
#[verifier::external_body]
pub(crate) fn c_sub(
    a: num_complex::Complex64,
    b: num_complex::Complex64,
) -> (r: num_complex::Complex64)
    ensures
        r == diff_of(a, b),
{
    a - b
}

/// Relies on `Mul for num_complex::Complex64`: the complex product.
#[verifier::external_body]
pub(crate) fn c_mul(
    a: num_complex::Complex64,
    b: num_complex::Complex64,
) -> (r: num_complex::Complex64)
    ensures
        r == prod_of(a, b),
{
    a * b
}

/// Relies on `num_complex::Complex::conj`: negates the imaginary part.
#[verifier::external_body]
pub(crate) fn c_conj(a: num_complex::Complex64) -> (r: num_complex::Complex64)
    ensures
        r == conj_of(a),
{
    a.conj()
}

/// Relies on `num_complex::Complex::unscale`: divides both parts by `n`.
#[verifier::external_body]
pub(crate) fn c_unscale(a: num_complex::Complex64, n: usize) -> (r: num_complex::Complex64)
    requires
        1 <= n,
    ensures
        r == unscaled_by(a, n as int),
{
    a.unscale(num_traits::cast(n).unwrap())
}

/// Relies on `num_complex::Complex::new` and floating-point addition: builds
/// `(re(a) + im(a), re(a) - im(a))`.
#[verifier::external_body]
pub(crate) fn c_dc_mix(a: num_complex::Complex64) -> (r: num_complex::Complex64)
    ensures
        r == dc_mix_of(a),
{
    num_complex::Complex64::new(a.re + a.im, a.re - a.im)
}

/// Relies on `From<f64> for num_complex::Complex64`: the real part of `a`
/// with zero imaginary part.
#[verifier::external_body]
pub(crate) fn c_re_part(a: num_complex::Complex64) -> (r: num_complex::Complex64)
    ensures
        r == re_part_of(a),
{
    a.re.into()
}

/// Relies on `From<f64> for num_complex::Complex64`: the imaginary part of
/// `a` with zero imaginary part.
#[verifier::external_body]
pub(crate) fn c_im_part(a: num_complex::Complex64) -> (r: num_complex::Complex64)
    ensures
        r == im_part_of(a),
{
    a.im.into()
}

/// Relies on `num_complex::Complex::i` and `Neg for num_complex::Complex64`:
/// the imaginary unit, negated on demand.
#[verifier::external_body]
pub(crate) fn c_imag_unit(negated: bool) -> (r: num_complex::Complex64)
    ensures
        r == imag_unit(negated),
{
    if negated {
        -num_complex::Complex64::i()
    } else {
        num_complex::Complex64::i()
    }
}

/// Relies on `num_traits::One for num_complex::Complex64` and on the sine
/// and pi of `f64` through `num_traits`: returns the stage multiplier of the
/// twiddle recurrence for the butterfly stage of width `step`, paired with
/// the unit that seeds the recurrence. Both components depend on the
/// arguments alone.
#[verifier::external_body]
pub(crate) fn stage_seed(
    step: usize,
    forward: bool,
) -> (r: (num_complex::Complex64, num_complex::Complex64))
    requires
        1 <= step,
    ensures
        r.0 == stage_multiplier_of(step as int, forward),
        r.1 == unit_factor(step as int),
{
    let unit: num_complex::Complex64 = num_traits::One::one();
    let one = unit.re;
    let two = one + one;
    let sign = if forward { -one } else { one };
    let c = num_complex::Complex64::new(
        num_traits::FloatConst::PI(),
        num_traits::cast(step).unwrap(),
    );
    let theta = c.re / c.im;
    let sine = num_traits::Float::sin(theta / two);
    let re = -two * sine * sine;
    let im = sign * num_traits::Float::sin(theta);
    (num_complex::Complex64::new(re, im), unit)
}

} // verus!
