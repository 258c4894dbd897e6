//! The quartic extension `Fp4 = Fp2[y] / (y^2 - D2)` with `D2 = D2C0 + D2C1 x`.
use crate::fq::{
    dmod, f2_add, f2_inverse, f2_mul, lemma_f2_mul_cong, f2_neg, f2_norm, f2_reduced, f2_sub,
    lemma_f2_inverse, lemma_f2_mul_assoc, lemma_f2_mul_comm, lemma_f2_mul_one, lemma_f2_mul_reduced,
    valid_modulus, Fp, Fp2,
};
use crate::fq::{fp2_sqrt_value, lemma_inverse_by_fermat};
use crate::modular::{
    euler_value, is_euler_square, is_prime, lemma_add_mod_both, lemma_euclid, lemma_mod_range,
    lemma_mul_cong, lemma_mul_mod_both,
};
use vstd::arithmetic::power::pow;
use crate::monoid::{lemma_mpow_square_multiply_step, lemma_mpow_unit, monoid_laws, mpow};
use vstd::arithmetic::div_mod::lemma_small_mod;
use vstd::prelude::*;

verus! {

/// An element `c0 + c1 y` of `Fp4`, by the coordinates of `c0` and `c1`.
pub type F4 = ((int, int), (int, int));

/// The square root of -1 that `Fp4::imaginary_unit` gives.
pub open spec fn f4_imag_value(d: int, e: (int, int), p: int) -> F4 {
    fp4_sqrt_value(((p - 1, 0int), (0int, 0int)), d, e, p)
}

/// The square root that `Fp4::sqrt` gives for a square `a` of `Fp4`: with `n`
/// the root of the norm, the first of `(a0 + n) / 2` and `(a0 - n) / 2` that
/// has a nonzero root `x` gives `(x, a1 / 2x)`; otherwise `(0, y)` with `y` the
/// root of `a0 / e`.
#[verifier::opaque]
pub open spec fn fp4_sqrt_value(a: F4, d: int, e: (int, int), p: int) -> F4 {
    let zero = (0int, 0int);
    if a.0 == zero && a.1 == zero {
        (zero, zero)
    } else {
        let n = fp2_sqrt_value(f4_norm(a, d, e, p), d, p);
        let ti = (pow(2, (p - 2) as nat) % p, 0int);
        let h1 = f2_mul(f2_add(a.0, n, p), ti, d, p);
        let x1 = fp2_sqrt_value(h1, d, p);
        let h2 = f2_mul(f2_sub(a.0, n, p), ti, d, p);
        let x2 = fp2_sqrt_value(h2, d, p);
        if is_euler_square(f2_norm(h1, d, p), p) && x1 != zero {
            (x1, f2_mul(a.1, f2_inverse(f2_add(x1, x1, p), d, p), d, p))
        } else if is_euler_square(f2_norm(h2, d, p), p) && x2 != zero {
            (x2, f2_mul(a.1, f2_inverse(f2_add(x2, x2, p), d, p), d, p))
        } else {
            (zero, fp2_sqrt_value(f2_mul(a.0, f2_inverse(e, d, p), d, p), d, p))
        }
    }
}

/// The element `D2 = D2C0 + D2C1 x` of `Fp2` that defines `Fp4`.
pub open spec fn d2_of(d2c0: u32, d2c1: u32, p: u32) -> (int, int) {
    (dmod(d2c0, p), dmod(d2c1, p))
}

pub open spec fn f4_add(a: F4, b: F4, p: int) -> F4 {
    (f2_add(a.0, b.0, p), f2_add(a.1, b.1, p))
}

pub open spec fn f4_sub(a: F4, b: F4, p: int) -> F4 {
    (f2_sub(a.0, b.0, p), f2_sub(a.1, b.1, p))
}

pub open spec fn f4_neg(a: F4, p: int) -> F4 {
    (f2_neg(a.0, p), f2_neg(a.1, p))
}

/// `(a0 + a1 y)(b0 + b1 y) = (a0 b0 + a1 b1 e) + (a0 b1 + a1 b0) y`, products
/// in `Fp2` with `x^2 = d`.
pub open spec fn f4_mul(a: F4, b: F4, d: int, e: (int, int), p: int) -> F4 {
    (
        f2_add(f2_mul(a.0, b.0, d, p), f2_mul(f2_mul(a.1, b.1, d, p), e, d, p), p),
        f2_add(f2_mul(a.0, b.1, d, p), f2_mul(a.1, b.0, d, p), p),
    )
}

/// The conjugate `a0 - a1 y`.
pub open spec fn f4_conj(a: F4, p: int) -> F4 {
    (a.0, f2_neg(a.1, p))
}

/// The norm `a0^2 - a1^2 e` in `Fp2`.
pub open spec fn f4_norm(a: F4, d: int, e: (int, int), p: int) -> (int, int) {
    f2_sub(f2_mul(a.0, a.0, d, p), f2_mul(f2_mul(a.1, a.1, d, p), e, d, p), p)
}

/// The candidate inverse `conj(a) * norm(a)^-1`.
pub open spec fn f4_inverse(a: F4, d: int, e: (int, int), p: int) -> F4 {
    let ni = f2_inverse(f4_norm(a, d, e, p), d, p);
    (f2_mul(a.0, ni, d, p), f2_mul(f2_neg(a.1, p), ni, d, p))
}

/// The elements of an array of `Fp4`, by their values.
pub open spec fn f4_views<const P: u32, const D1: u32, const D2C0: u32, const D2C1: u32, const N: usize>(
    a: [Fp4<P, D1, D2C0, D2C1>; N],
) -> Seq<F4> {
    Seq::new(N as nat, |i: int| a[i]@)
}

/// `-1` in `Fp4`.
pub open spec fn f4_minus_one(p: int) -> F4 {
    ((p - 1, 0int), (0int, 0int))
}

/// `i` is a square root of `-1`.
pub open spec fn f4_is_imag(i: F4, d: int, e: (int, int), p: int) -> bool {
    f4_mul(i, i, d, e, p) == f4_minus_one(p)
}

/// `Fp4` is a field: `P` is an odd prime, `D1` a non-residue modulo `P` and
/// `D2` a non-square of `Fp2`.
pub open spec fn f4_field(p: u32, d1: u32, d2c0: u32, d2c1: u32) -> bool {
    &&& is_prime(p as int)
    &&& p % 2 == 1
    &&& valid_modulus(p as int)
    &&& !is_euler_square(dmod(d1, p), p as int)
    &&& !is_euler_square(f2_norm(d2_of(d2c0, d2c1, p), dmod(d1, p), p as int), p as int)
}

/// The zero of `Fp4`.
pub open spec fn f4_zero() -> F4 {
    ((0int, 0int), (0int, 0int))
}

/// The one of `Fp4`.
pub open spec fn f4_one() -> F4 {
    ((1int, 0int), (0int, 0int))
}

/// The integer `c` as an element of `Fp4`.
pub open spec fn f4_const(c: int, p: int) -> F4 {
    ((c % p, 0int), (0int, 0int))
}

/// `x` can be inverted: it, its norm and the norm of its norm are nonzero.
pub open spec fn f4_invertible(x: F4, d: int, e: (int, int), p: int) -> bool {
    &&& x != f4_zero()
    &&& f4_norm(x, d, e, p) != (0int, 0int)
    &&& f2_norm(f4_norm(x, d, e, p), d, p) != 0
}

/// The multiplication of `Fp4` as a function value.
pub open spec fn f4_mul_op(d: int, e: (int, int), p: int) -> spec_fn(F4, F4) -> F4 {
    |x: F4, y: F4| f4_mul(x, y, d, e, p)
}

/// `a^n` in `Fp4`.
pub open spec fn f4_pow(a: F4, n: nat, d: int, e: (int, int), p: int) -> F4 {
    mpow(f4_mul_op(d, e, p), ((1, 0), (0, 0)), a, n)
}

/// Addition in `Fp2` is commutative.
pub proof fn lemma_f2_add_comm(x: (int, int), y: (int, int), p: int)
    ensures
        f2_add(x, y, p) == f2_add(y, x, p),
{
}

/// Addition in `Fp2` is associative.
pub proof fn lemma_f2_add_assoc(x: (int, int), y: (int, int), z: (int, int), p: int)
    requires
        p > 0,
    ensures
        f2_add(f2_add(x, y, p), z, p) == f2_add(x, f2_add(y, z, p), p),
{
    lemma_add_mod_both(x.0 + y.0, z.0, p);
    lemma_add_mod_both(x.0, y.0 + z.0, p);
    lemma_add_mod_both(x.1 + y.1, z.1, p);
    lemma_add_mod_both(x.1, y.1 + z.1, p);
}

/// Four summands in `Fp2` can be regrouped: `(a + b) + (c + e) == (a + c) + (b + e)`.
pub proof fn lemma_f2_add_shuffle(a: (int, int), b: (int, int), c: (int, int), e: (int, int), p: int)
    requires
        p > 0,
    ensures
        f2_add(f2_add(a, b, p), f2_add(c, e, p), p) == f2_add(f2_add(a, c, p), f2_add(b, e, p), p),
{
    lemma_f2_add_assoc(a, b, f2_add(c, e, p), p);
    lemma_f2_add_assoc(b, c, e, p);
    lemma_f2_add_comm(b, c, p);
    lemma_f2_add_assoc(c, b, e, p);
    lemma_f2_add_assoc(a, c, f2_add(b, e, p), p);
}

/// Multiplication in `Fp2` distributes over addition.
pub proof fn lemma_f2_distrib(x: (int, int), y: (int, int), z: (int, int), d: int, p: int)
    requires
        p > 0,
    ensures
        f2_mul(x, f2_add(y, z, p), d, p) == f2_add(f2_mul(x, y, d, p), f2_mul(x, z, d, p), p),
        f2_mul(f2_add(y, z, p), x, d, p) == f2_add(f2_mul(y, x, d, p), f2_mul(z, x, d, p), p),
{
    let w = (y.0 + z.0, y.1 + z.1);
    lemma_mod_range(w.0, p);
    lemma_mod_range(w.1, p);
    lemma_mod_range(x.0, p);
    lemma_mod_range(x.1, p);
    lemma_f2_mul_cong(x, f2_add(y, z, p), x, w, d, p);
    assert(x.0 * w.0 + d * (x.1 * w.1) == (x.0 * y.0 + d * (x.1 * y.1)) + (x.0 * z.0 + d * (x.1 * z.1))) by (nonlinear_arith)
        requires
            w == (y.0 + z.0, y.1 + z.1),
    ;
    assert(x.0 * w.1 + x.1 * w.0 == (x.0 * y.1 + x.1 * y.0) + (x.0 * z.1 + x.1 * z.0)) by (nonlinear_arith)
        requires
            w == (y.0 + z.0, y.1 + z.1),
    ;
    lemma_add_mod_both(x.0 * y.0 + d * (x.1 * y.1), x.0 * z.0 + d * (x.1 * z.1), p);
    lemma_add_mod_both(x.0 * y.1 + x.1 * y.0, x.0 * z.1 + x.1 * z.0, p);
    lemma_f2_mul_comm(f2_add(y, z, p), x, d, p);
    lemma_f2_mul_comm(y, x, d, p);
    lemma_f2_mul_comm(z, x, d, p);
}

/// Products in `Fp4` are reduced.
pub proof fn lemma_f4_mul_reduced(x: F4, y: F4, d: int, e: (int, int), p: int)
    requires
        p > 0,
    ensures
        f2_reduced(f4_mul(x, y, d, e, p).0, p),
        f2_reduced(f4_mul(x, y, d, e, p).1, p),
{
    let a = f2_mul(x.0, y.0, d, p);
    let b = f2_mul(f2_mul(x.1, y.1, d, p), e, d, p);
    lemma_mod_range(a.0 + b.0, p);
    lemma_mod_range(a.1 + b.1, p);
    let c = f2_mul(x.0, y.1, d, p);
    let g = f2_mul(x.1, y.0, d, p);
    lemma_mod_range(c.0 + g.0, p);
    lemma_mod_range(c.1 + g.1, p);
}

/// Multiplication in `Fp4` is commutative.
pub proof fn lemma_f4_mul_comm(x: F4, y: F4, d: int, e: (int, int), p: int)
    ensures
        f4_mul(x, y, d, e, p) == f4_mul(y, x, d, e, p),
{
    lemma_f2_mul_comm(x.0, y.0, d, p);
    lemma_f2_mul_comm(x.1, y.1, d, p);
    lemma_f2_mul_comm(x.0, y.1, d, p);
    lemma_f2_mul_comm(x.1, y.0, d, p);
    lemma_f2_add_comm(f2_mul(y.0, x.1, d, p), f2_mul(y.1, x.0, d, p), p);
}

/// Three factors in `Fp2` can be regrouped and reordered.
proof fn lemma_f2_mul3(a: (int, int), b: (int, int), c: (int, int), d: int, p: int)
    requires
        p > 0,
    ensures
        f2_mul(f2_mul(a, b, d, p), c, d, p) == f2_mul(f2_mul(a, c, d, p), b, d, p),
        f2_mul(f2_mul(a, b, d, p), c, d, p) == f2_mul(a, f2_mul(b, c, d, p), d, p),
{
    lemma_f2_mul_assoc(a, b, c, d, p);
    lemma_f2_mul_assoc(a, c, b, d, p);
    lemma_f2_mul_comm(b, c, d, p);
}

/// Multiplication in `Fp4` is associative.
pub proof fn lemma_f4_mul_assoc(x: F4, y: F4, z: F4, d: int, e: (int, int), p: int)
    requires
        p > 0,
    ensures
        f4_mul(f4_mul(x, y, d, e, p), z, d, e, p) == f4_mul(x, f4_mul(y, z, d, e, p), d, e, p),
{
    let (x0, x1) = x;
    let (y0, y1) = y;
    let (z0, z1) = z;
    let m = |a: (int, int), b: (int, int)| f2_mul(a, b, d, p);
    let s = |a: (int, int), b: (int, int)| f2_add(a, b, p);
    // first coordinate
    lemma_f2_distrib(z0, m(x0, y0), m(m(x1, y1), e), d, p);
    lemma_f2_distrib(z1, m(x0, y1), m(x1, y0), d, p);
    lemma_f2_distrib(e, m(m(x0, y1), z1), m(m(x1, y0), z1), d, p);
    lemma_f2_distrib(x0, m(y0, z0), m(m(y1, z1), e), d, p);
    lemma_f2_distrib(x1, m(y0, z1), m(y1, z0), d, p);
    lemma_f2_distrib(e, m(x1, m(y0, z1)), m(x1, m(y1, z0)), d, p);
    // x0 y0 z0
    lemma_f2_mul_assoc(x0, y0, z0, d, p);
    // x1 y1 e z0 == x1 (y1 z0) e
    lemma_f2_mul3(m(x1, y1), e, z0, d, p);
    lemma_f2_mul_assoc(x1, y1, z0, d, p);
    // x0 y1 z1 e == x0 ((y1 z1) e)
    lemma_f2_mul_assoc(x0, y1, z1, d, p);
    lemma_f2_mul_assoc(x0, m(y1, z1), e, d, p);
    // x1 y0 z1 e == x1 (y0 z1) e
    lemma_f2_mul_assoc(x1, y0, z1, d, p);
    lemma_f2_add_shuffle(
        m(x0, m(y0, z0)),
        m(m(x1, m(y1, z0)), e),
        m(m(x0, m(y1, z1)), e),
        m(m(x1, m(y0, z1)), e),
        p,
    );
    lemma_f2_add_comm(m(x0, m(y0, z0)), m(x0, m(m(y1, z1), e)), p);
    lemma_f2_add_comm(m(m(x1, m(y0, z1)), e), m(m(x1, m(y1, z0)), e), p);
    // second coordinate
    lemma_f2_distrib(z1, m(x0, y0), m(m(x1, y1), e), d, p);
    lemma_f2_distrib(z0, m(x0, y1), m(x1, y0), d, p);
    lemma_f2_distrib(x0, m(y0, z1), m(y1, z0), d, p);
    lemma_f2_distrib(x1, m(y0, z0), m(m(y1, z1), e), d, p);
    lemma_f2_mul_assoc(x0, y0, z1, d, p);
    lemma_f2_mul3(m(x1, y1), e, z1, d, p);
    lemma_f2_mul_assoc(x1, y1, z1, d, p);
    lemma_f2_mul_assoc(x1, m(y1, z1), e, d, p);
    lemma_f2_mul_assoc(x0, y1, z0, d, p);
    lemma_f2_mul_assoc(x1, y0, z0, d, p);
    lemma_f2_add_shuffle(
        m(x0, m(y0, z1)),
        m(x1, m(m(y1, z1), e)),
        m(x0, m(y1, z0)),
        m(x1, m(y0, z0)),
        p,
    );
    lemma_f2_add_comm(m(x1, m(y0, z0)), m(x1, m(m(y1, z1), e)), p);
}

/// `1` is a unit for reduced elements of `Fp4`.
pub proof fn lemma_f4_mul_one(x: F4, d: int, e: (int, int), p: int)
    requires
        p >= 2,
        f2_reduced(x.0, p),
        f2_reduced(x.1, p),
    ensures
        f4_mul(x, ((1, 0), (0, 0)), d, e, p) == x,
{
    lemma_f2_mul_one(x.0, d, p);
    lemma_f2_mul_one(x.1, d, p);
    assert(x.1.0 * 0 + d * (x.1.1 * 0) == 0) by (nonlinear_arith);
    assert(x.1.0 * 0 + x.1.1 * 0 == 0) by (nonlinear_arith);
    assert(x.0.0 * 0 + d * (x.0.1 * 0) == 0) by (nonlinear_arith);
    assert(x.0.0 * 0 + x.0.1 * 0 == 0) by (nonlinear_arith);
    lemma_small_mod(0, p as nat);
    assert(e.0 * 0 + d * (e.1 * 0) == 0) by (nonlinear_arith);
    assert(0 * e.0 + d * (0 * e.1) == 0) by (nonlinear_arith);
    assert(0 * e.1 + 0 * e.0 == 0) by (nonlinear_arith);
    lemma_small_mod(x.0.0 as nat, p as nat);
    lemma_small_mod(x.0.1 as nat, p as nat);
    lemma_small_mod(x.1.0 as nat, p as nat);
    lemma_small_mod(x.1.1 as nat, p as nat);
}

/// `Fp4` is a commutative monoid under multiplication.
pub proof fn lemma_f4_monoid(d: int, e: (int, int), p: int)
    requires
        p >= 2,
    ensures
        monoid_laws(f4_mul_op(d, e, p), ((1, 0), (0, 0))),
{
    let op = f4_mul_op(d, e, p);
    assert forall|x: F4, y: F4, z: F4| #[trigger] op(op(x, y), z) == op(x, op(y, z)) by {
        lemma_f4_mul_assoc(x, y, z, d, e, p);
    }
    assert forall|x: F4, y: F4| #[trigger] op(x, y) == op(y, x) by {
        lemma_f4_mul_comm(x, y, d, e, p);
    }
    assert forall|x: F4, y: F4| #[trigger] op(op(x, y), ((1, 0), (0, 0))) == op(x, y) by {
        lemma_f4_mul_reduced(x, y, d, e, p);
        lemma_f4_mul_one(f4_mul(x, y, d, e, p), d, e, p);
    }
    lemma_f4_mul_one(((1, 0), (0, 0)), d, e, p);
}

/// `x * (-y) == -(x * y)` in `Fp2`.
pub proof fn lemma_f2_mul_neg(x: (int, int), y: (int, int), d: int, p: int)
    requires
        p > 0,
    ensures
        f2_mul(x, f2_neg(y, p), d, p) == f2_neg(f2_mul(x, y, d, p), p),
{
    let ny = (-y.0, -y.1);
    lemma_mod_range(-y.0, p);
    lemma_mod_range(-y.1, p);
    lemma_mod_range(x.0, p);
    lemma_mod_range(x.1, p);
    lemma_f2_mul_cong(x, f2_neg(y, p), x, ny, d, p);
    assert(x.0 * ny.0 + d * (x.1 * ny.1) == -(x.0 * y.0 + d * (x.1 * y.1))) by (nonlinear_arith)
        requires
            ny == (-y.0, -y.1),
    ;
    assert(x.0 * ny.1 + x.1 * ny.0 == -(x.0 * y.1 + x.1 * y.0)) by (nonlinear_arith)
        requires
            ny == (-y.0, -y.1),
    ;
    crate::modular::lemma_sub_mod_both(0, x.0 * y.0 + d * (x.1 * y.1), p);
    crate::modular::lemma_sub_mod_both(0, x.0 * y.1 + x.1 * y.0, p);
}

/// `-z + z == 0`, `z - w == z + (-w)` and `x * 0 == 0` in `Fp2`.
pub proof fn lemma_f2_neg_facts(z: (int, int), w: (int, int), x: (int, int), d: int, p: int)
    requires
        p > 0,
    ensures
        f2_add(f2_neg(z, p), z, p) == (0int, 0int),
        f2_sub(z, w, p) == f2_add(z, f2_neg(w, p), p),
        f2_mul(x, (0, 0), d, p) == (0int, 0int),
{
    lemma_add_mod_both(-z.0, z.0, p);
    lemma_add_mod_both(-z.1, z.1, p);
    lemma_small_mod(0, p as nat);
    lemma_add_mod_both(z.0, -w.0, p);
    lemma_add_mod_both(z.1, -w.1, p);
    assert(x.0 * 0 + d * (x.1 * 0) == 0) by (nonlinear_arith);
    assert(x.0 * 0 + x.1 * 0 == 0) by (nonlinear_arith);
}

/// With `p` prime, an element times its candidate inverse is one when the
/// norm of its norm is nonzero.
pub proof fn lemma_f4_inverse(a: F4, d: int, e: (int, int), p: int)
    requires
        is_prime(p),
        valid_modulus(p),
        f2_norm(f4_norm(a, d, e, p), d, p) != 0,
    ensures
        f4_mul(a, f4_inverse(a, d, e, p), d, e, p) == ((1int, 0int), (0int, 0int)),
{
    let (a0, a1) = a;
    let m = |u: (int, int), v: (int, int)| f2_mul(u, v, d, p);
    let n = f4_norm(a, d, e, p);
    let ni = f2_inverse(n, d, p);
    let na1 = f2_neg(a1, p);
    let aa = m(a1, a1);
    // n is reduced
    lemma_mod_range(m(a0, a0).0 - m(aa, e).0, p);
    lemma_mod_range(m(a0, a0).1 - m(aa, e).1, p);
    lemma_f2_inverse(n, d, p);
    // first coordinate: a0 (a0 ni) + (a1 (-a1 ni)) e == n ni
    lemma_f2_mul_assoc(a0, a0, ni, d, p);
    lemma_f2_mul_assoc(a1, na1, ni, d, p);
    lemma_f2_mul_neg(a1, a1, d, p);
    lemma_f2_mul3(f2_neg(aa, p), ni, e, d, p);
    lemma_f2_mul_comm(f2_neg(aa, p), e, d, p);
    lemma_f2_mul_neg(e, aa, d, p);
    lemma_f2_mul_comm(e, aa, d, p);
    lemma_f2_distrib(ni, m(a0, a0), f2_neg(m(aa, e), p), d, p);
    lemma_f2_neg_facts(m(a0, a0), m(aa, e), ni, d, p);
    // second coordinate: a0 (-a1 ni) + a1 (a0 ni) == 0
    lemma_f2_mul_assoc(a0, na1, ni, d, p);
    lemma_f2_mul_neg(a0, a1, d, p);
    lemma_f2_mul_assoc(a1, a0, ni, d, p);
    lemma_f2_mul_comm(a1, a0, d, p);
    lemma_f2_distrib(ni, f2_neg(m(a0, a1), p), m(a0, a1), d, p);
    lemma_f2_neg_facts(m(a0, a1), m(a0, a1), ni, d, p);
    lemma_f2_mul_comm((0, 0), ni, d, p);
}

/// `(u0 v0 + d u1 v1)^2 - d (u0 v1 + u1 v0)^2 == (u0^2 - d u1^2)(v0^2 - d v1^2)`.
#[verifier::rlimit(30)]
proof fn lemma_brahmagupta(u0: int, u1: int, v0: int, v1: int, d: int)
    ensures
        (u0 * v0 + d * (u1 * v1)) * (u0 * v0 + d * (u1 * v1)) - d * ((u0 * v1 + u1 * v0) * (u0 * v1
            + u1 * v0)) == (u0 * u0 - d * (u1 * u1)) * (v0 * v0 - d * (v1 * v1)),
{
    let a = u0 * v0;
    let b = u1 * v1;
    let c = u0 * v1;
    let e = u1 * v0;
    let pp = u0 * u0;
    let q = u1 * u1;
    let r = v0 * v0;
    let s = v1 * v1;
    assert(a * a == pp * r) by (nonlinear_arith)
        requires
            a == u0 * v0,
            pp == u0 * u0,
            r == v0 * v0,
    ;
    assert(b * b == q * s) by (nonlinear_arith)
        requires
            b == u1 * v1,
            q == u1 * u1,
            s == v1 * v1,
    ;
    assert(c * c == pp * s) by (nonlinear_arith)
        requires
            c == u0 * v1,
            pp == u0 * u0,
            s == v1 * v1,
    ;
    assert(e * e == q * r) by (nonlinear_arith)
        requires
            e == u1 * v0,
            q == u1 * u1,
            r == v0 * v0,
    ;
    assert(a * b == c * e) by (nonlinear_arith)
        requires
            a == u0 * v0,
            b == u1 * v1,
            c == u0 * v1,
            e == u1 * v0,
    ;
    assert((a + d * b) * (a + d * b) == a * a + 2 * (d * (a * b)) + (d * d) * (b * b)) by (nonlinear_arith);
    assert((c + e) * (c + e) == c * c + 2 * (c * e) + e * e) by (nonlinear_arith);
    assert(d * (c * c + 2 * (c * e) + e * e) == d * (c * c) + 2 * (d * (c * e)) + d * (e * e)) by (nonlinear_arith);
    vstd::arithmetic::mul::lemma_mul_is_distributive_sub_other_way(r - d * s, pp, d * q);
    vstd::arithmetic::mul::lemma_mul_is_distributive_sub(pp, r, d * s);
    vstd::arithmetic::mul::lemma_mul_is_distributive_sub(d * q, r, d * s);
    vstd::arithmetic::mul::lemma_mul_is_associative(pp, d, s);
    vstd::arithmetic::mul::lemma_mul_is_commutative(pp, d);
    vstd::arithmetic::mul::lemma_mul_is_associative(d, pp, s);
    vstd::arithmetic::mul::lemma_mul_is_associative(d, q, r);
    assert((d * q) * (d * s) == (d * d) * (q * s)) by (nonlinear_arith);
}

/// The norm is multiplicative: `N(u v) == N(u) N(v)`.
pub proof fn lemma_f2_norm_mul(u: (int, int), v: (int, int), d: int, p: int)
    requires
        p > 0,
    ensures
        f2_norm(f2_mul(u, v, d, p), d, p) == (f2_norm(u, d, p) * f2_norm(v, d, p)) % p,
{
    let r0 = u.0 * v.0 + d * (u.1 * v.1);
    let r1 = u.0 * v.1 + u.1 * v.0;
    let z = f2_mul(u, v, d, p);
    lemma_mod_range(r0, p);
    lemma_mod_range(r1, p);
    crate::modular::lemma_mul_cong(z.0, z.0, r0, r0, p);
    crate::modular::lemma_mul_cong(z.1, z.1, r1, r1, p);
    crate::modular::lemma_mul_cong(d, z.1 * z.1, d, r1 * r1, p);
    crate::modular::lemma_sub_cong(z.0 * z.0, d * (z.1 * z.1), r0 * r0, d * (r1 * r1), p);
    let nu = u.0 * u.0 - d * (u.1 * u.1);
    let nv = v.0 * v.0 - d * (v.1 * v.1);
    lemma_brahmagupta(u.0, u.1, v.0, v.1, d);
    crate::modular::lemma_mul_mod_both(nu, nv, p);
}

/// With `d` a non-residue modulo the prime `p`, only zero has norm zero.
pub proof fn lemma_f2_norm_zero(z: (int, int), d: int, p: int)
    requires
        is_prime(p),
        p % 2 == 1,
        f2_reduced(z, p),
        0 <= d < p,
        !is_euler_square(d, p),
        f2_norm(z, d, p) == 0,
    ensures
        z == (0int, 0int),
{
    let (z0, z1) = z;
    lemma_small_mod(0, p as nat);
    lemma_small_mod(d as nat, p as nat);
    crate::modular::lemma_mod_eq_iff_diff(z0 * z0, d * (z1 * z1), p);
    lemma_small_mod(0, p as nat);
    assert((z0 * z0) % p == (d * (z1 * z1)) % p);
    if z1 != 0 {
        lemma_inverse_by_fermat(z1, p);
        let t = pow(z1, (p - 2) as nat) % p;
        lemma_mod_range(pow(z1, (p - 2) as nat), p);
        // (z0 t)^2 == d (z1 t)^2 == d
        let g = z0 * t;
        assert(g * g == (z0 * z0) * (t * t)) by (nonlinear_arith)
            requires
                g == z0 * t,
        ;
        lemma_mul_cong(z0 * z0, t * t, d * (z1 * z1), t * t, p);
        assert((d * (z1 * z1)) * (t * t) == d * ((z1 * t) * (z1 * t))) by (nonlinear_arith);
        lemma_small_mod(1, p as nat);
        lemma_mul_cong(z1 * t, z1 * t, 1, 1, p);
        lemma_mul_cong(d, (z1 * t) * (z1 * t), d, 1, p);
        assert((g * g) % p == d);
        if g % p == 0 {
            lemma_mul_mod_both(g, g, p);
            assert((g % p) * (g % p) == 0);
            assert(d == 0);
        } else {
            crate::modular::lemma_square_passes_euler(g, p);
            crate::modular::lemma_euler_mod(g * g, p);
        }
        assert(false);
    }
    assert(z1 == 0);
    assert(d * (z1 * z1) == 0) by (nonlinear_arith)
        requires
            z1 == 0,
    ;
    lemma_euclid(z0, z0, p);
    lemma_small_mod(z0 as nat, p as nat);
}

/// With `d` a non-residue modulo the prime `p`, `Fp2` has no zero divisors.
pub proof fn lemma_f2_domain(u: (int, int), v: (int, int), d: int, p: int)
    requires
        is_prime(p),
        p % 2 == 1,
        f2_reduced(u, p),
        f2_reduced(v, p),
        0 <= d < p,
        !is_euler_square(d, p),
        f2_mul(u, v, d, p) == (0int, 0int),
    ensures
        u == (0int, 0int) || v == (0int, 0int),
{
    lemma_f2_norm_mul(u, v, d, p);
    lemma_small_mod(0, p as nat);
    assert(f2_norm((0int, 0int), d, p) == 0) by {
        assert(0int * 0int - d * (0int * 0int) == 0) by (nonlinear_arith);
    }
    let nu = f2_norm(u, d, p);
    let nv = f2_norm(v, d, p);
    lemma_euclid(nu, nv, p);
    lemma_mod_range(u.0 * u.0 - d * (u.1 * u.1), p);
    lemma_mod_range(v.0 * v.0 - d * (v.1 * v.1), p);
    if nu % p == 0 {
        lemma_small_mod(nu as nat, p as nat);
        lemma_f2_norm_zero(u, d, p);
    } else {
        lemma_small_mod(nv as nat, p as nat);
        lemma_f2_norm_zero(v, d, p);
    }
}

/// `(ti, 0) + (ti, 0) == 1` when `2 ti == 1`, and `x + x == 0` only for `x == 0`.
proof fn lemma_f2_two(x: (int, int), ti: int, p: int)
    requires
        is_prime(p),
        p % 2 == 1,
        f2_reduced(x, p),
        0 <= ti < p,
        (2 * ti) % p == 1,
    ensures
        f2_add((ti, 0), (ti, 0), p) == (1int, 0int),
        f2_add(x, x, p) == (0int, 0int) ==> x == (0int, 0int),
        f2_reduced(f2_add(x, x, p), p),
{
    lemma_small_mod(0, p as nat);
    assert(ti + ti == 2 * ti);
    lemma_mod_range(x.0 + x.0, p);
    lemma_mod_range(x.1 + x.1, p);
    if f2_add(x, x, p) == (0int, 0int) {
        assert(p > 2) by {
            if p == 2 {
                assert(false);
            }
        }
        lemma_small_mod(2, p as nat);
        assert(x.0 + x.0 == 2 * x.0 && x.1 + x.1 == 2 * x.1);
        lemma_euclid(2, x.0, p);
        lemma_euclid(2, x.1, p);
        lemma_small_mod(x.0 as nat, p as nat);
        lemma_small_mod(x.1 as nat, p as nat);
    }
}

/// A root tried by the square-root algorithm of `Fp4`: with `sg^2 = a^2 - b^2 e`,
/// `h = (a + sg) / 2`, `x^2 = h` for a nonzero `x` and `y (x + x) = b`, the
/// square of `x + y Y` is `a + b Y`.
#[verifier::rlimit(40)]
pub proof fn lemma_f4_attempt(
    a: (int, int),
    b: (int, int),
    sg: (int, int),
    e: (int, int),
    ti: int,
    h: (int, int),
    x: (int, int),
    y: (int, int),
    d: int,
    p: int,
)
    requires
        is_prime(p),
        valid_modulus(p),
        p % 2 == 1,
        0 <= d < p,
        !is_euler_square(d, p),
        f2_reduced(a, p),
        f2_reduced(b, p),
        f2_reduced(sg, p),
        f2_reduced(x, p),
        f2_reduced(y, p),
        0 <= ti < p,
        (2 * ti) % p == 1,
        f2_mul(sg, sg, d, p) == f2_sub(f2_mul(a, a, d, p), f2_mul(f2_mul(b, b, d, p), e, d, p), p),
        h == f2_mul(f2_add(a, sg, p), (ti, 0), d, p),
        f2_mul(x, x, d, p) == h,
        x != (0int, 0int),
        f2_mul(y, f2_add(x, x, p), d, p) == b,
    ensures
        f4_mul((x, y), (x, y), d, e, p) == (a, b),
{
    let m = |u: (int, int), v: (int, int)| f2_mul(u, v, d, p);
    let s = |u: (int, int), v: (int, int)| f2_add(u, v, p);
    let ng = |u: (int, int)| f2_neg(u, p);
    let inv2 = (ti, 0int);
    let one = (1int, 0int);
    let u = s(x, x);
    let w = s(a, sg);
    let aa = m(a, a);
    let bbe = m(m(b, b), e);
    let t = s(m(x, x), m(m(y, y), e));
    assert(p >= 2);
    lemma_f2_two(x, ti, p);
    lemma_mod_range(a.0 + sg.0, p);
    lemma_mod_range(a.1 + sg.1, p);
    // second coordinate: x y + y x == y (x + x) == b
    lemma_f2_distrib(y, x, x, d, p);
    lemma_f2_mul_comm(x, y, d, p);
    // (2): h + h == w
    lemma_f2_distrib(w, inv2, inv2, d, p);
    lemma_f2_mul_one(w, d, p);
    // (3): u x == w
    lemma_f2_distrib(x, x, x, d, p);
    assert(m(u, x) == w);
    // (4): u^2 t == w^2 + b^2 e
    lemma_f2_distrib(m(u, u), m(x, x), m(m(y, y), e), d, p);
    lemma_f2_mul_assoc(u, u, m(x, x), d, p);
    lemma_f2_mul_assoc(u, x, x, d, p);
    lemma_f2_mul_comm(u, x, d, p);
    lemma_f2_mul_assoc(x, u, x, d, p);
    lemma_f2_mul_assoc(u, x, m(u, x), d, p);
    assert(m(m(u, u), m(x, x)) == m(w, w));
    lemma_f2_mul_assoc(m(u, u), m(y, y), e, d, p);
    lemma_f2_mul_assoc(u, u, m(y, y), d, p);
    lemma_f2_mul_assoc(u, y, y, d, p);
    lemma_f2_mul_comm(u, y, d, p);
    lemma_f2_mul_assoc(y, u, y, d, p);
    lemma_f2_mul_assoc(u, y, m(u, y), d, p);
    assert(m(u, y) == b);
    assert(m(m(u, u), m(m(y, y), e)) == bbe);
    assert(m(m(u, u), t) == s(m(w, w), bbe));
    // (5): u^2 a == w a + w a
    lemma_f2_distrib(u, x, x, d, p);
    assert(m(u, u) == s(w, w));
    lemma_f2_distrib(a, w, w, d, p);
    // (6), (7), (8)
    lemma_f2_distrib(w, a, sg, d, p);
    lemma_f2_add_assoc(m(w, a), m(w, sg), bbe, p);
    lemma_f2_distrib(sg, a, sg, d, p);
    lemma_f2_neg_facts(bbe, bbe, a, d, p);
    lemma_f2_neg_facts(aa, bbe, a, d, p);
    lemma_f2_add_assoc(m(a, sg), s(aa, ng(bbe)), bbe, p);
    lemma_f2_add_assoc(aa, ng(bbe), bbe, p);
    lemma_f2_mul_reduced(a, a, d, p);
    lemma_small_mod(0, p as nat);
    lemma_small_mod(aa.0 as nat, p as nat);
    lemma_small_mod(aa.1 as nat, p as nat);
    assert(s(aa, (0int, 0int)) == aa);
    assert(s(m(w, sg), bbe) == s(m(a, sg), aa));
    lemma_f2_distrib(a, a, sg, d, p);
    lemma_f2_mul_comm(sg, a, d, p);
    lemma_f2_add_comm(aa, m(a, sg), p);
    assert(m(w, a) == s(m(a, sg), aa));
    assert(m(m(u, u), t) == m(m(u, u), a));
    // (9): cancel u^2
    lemma_mod_range(x.0 + x.0, p);
    lemma_mod_range(x.1 + x.1, p);
    lemma_f2_mul_reduced(u, u, d, p);
    if m(u, u) == (0int, 0int) {
        lemma_f2_domain(u, u, d, p);
    }
    let c = m(u, u);
    if f2_norm(c, d, p) == 0 {
        lemma_f2_norm_zero(c, d, p);
    }
    lemma_f2_inverse(c, d, p);
    let ci = f2_inverse(c, d, p);
    lemma_f2_mul_assoc(ci, c, t, d, p);
    lemma_f2_mul_assoc(ci, c, a, d, p);
    lemma_f2_mul_comm(ci, c, d, p);
    lemma_f2_mul_one(a, d, p);
    lemma_f4_mul_reduced((x, y), (x, y), d, e, p);
    lemma_f2_mul_one(t, d, p);
}

/// Negation in `Fp2`: `-(x + y) == -x + -y`, `-(-z) == z`, `0 + z == z` and
/// `z + -z == 0`, for reduced `z`.
proof fn lemma_f2_neg_more(x: (int, int), y: (int, int), z: (int, int), p: int)
    requires
        p > 0,
        f2_reduced(z, p),
    ensures
        f2_neg(f2_add(x, y, p), p) == f2_add(f2_neg(x, p), f2_neg(y, p), p),
        f2_neg(f2_neg(z, p), p) == z,
        f2_add((0, 0), z, p) == z,
        f2_add(z, (0, 0), p) == z,
        f2_add(z, f2_neg(z, p), p) == (0int, 0int),
{
    crate::modular::lemma_sub_mod_both(0, x.0 + y.0, p);
    crate::modular::lemma_sub_mod_both(0, x.1 + y.1, p);
    lemma_add_mod_both(-x.0, -y.0, p);
    lemma_add_mod_both(-x.1, -y.1, p);
    crate::modular::lemma_sub_mod_both(0, -z.0, p);
    crate::modular::lemma_sub_mod_both(0, -z.1, p);
    lemma_small_mod(z.0 as nat, p as nat);
    lemma_small_mod(z.1 as nat, p as nat);
    lemma_small_mod(0, p as nat);
    lemma_add_mod_both(z.0, -z.0, p);
    lemma_add_mod_both(z.1, -z.1, p);
}

/// `(x + y)(x - y) == x^2 - y^2` in `Fp2`, the difference written as a sum.
proof fn lemma_f2_diff_squares(x: (int, int), y: (int, int), d: int, p: int)
    requires
        p > 0,
    ensures
        f2_mul(f2_add(x, y, p), f2_add(x, f2_neg(y, p), p), d, p) == f2_add(
            f2_mul(x, x, d, p),
            f2_neg(f2_mul(y, y, d, p), p),
            p,
        ),
{
    let m = |u: (int, int), v: (int, int)| f2_mul(u, v, d, p);
    let s = |u: (int, int), v: (int, int)| f2_add(u, v, p);
    let ng = |u: (int, int)| f2_neg(u, p);
    let w = s(x, y);
    lemma_f2_distrib(w, x, ng(y), d, p);
    lemma_f2_distrib(x, x, y, d, p);
    lemma_f2_mul_neg(w, y, d, p);
    lemma_f2_distrib(y, x, y, d, p);
    // (xx + yx) + -(xy + yy)
    lemma_f2_mul_comm(y, x, d, p);
    let xx = m(x, x);
    let xy = m(x, y);
    let yy = m(y, y);
    lemma_f2_mul_reduced(x, y, d, p);
    lemma_f2_mul_reduced(y, y, d, p);
    lemma_f2_neg_more(xy, yy, xy, p);
    lemma_f2_add_assoc(xx, xy, s(ng(xy), ng(yy)), p);
    lemma_f2_add_assoc(xy, ng(xy), ng(yy), p);
    lemma_mod_range(-yy.0, p);
    lemma_mod_range(-yy.1, p);
    lemma_f2_neg_more(xy, yy, ng(yy), p);
    assert(s(s(xy, ng(xy)), ng(yy)) == ng(yy));
    lemma_f2_mul_neg(w, y, d, p);
    assert(m(w, ng(y)) == ng(m(w, y)));
    assert(m(w, y) == s(xy, yy));
}

/// The norm of a nonzero element of `Fp2` is a unit, and its Euler value is `1`
/// for a square and `p - 1` otherwise.
proof fn lemma_f2_character(z: (int, int), d: int, p: int)
    requires
        is_prime(p),
        p % 2 == 1,
        f2_reduced(z, p),
        0 <= d < p,
        !is_euler_square(d, p),
        z != (0int, 0int),
    ensures
        f2_norm(z, d, p) % p != 0,
        is_euler_square(f2_norm(z, d, p), p) <==> euler_value(f2_norm(z, d, p), p) == 1,
        !is_euler_square(f2_norm(z, d, p), p) <==> euler_value(f2_norm(z, d, p), p) == p - 1,
{
    let n = f2_norm(z, d, p);
    lemma_mod_range(z.0 * z.0 - d * (z.1 * z.1), p);
    if n == 0 {
        lemma_f2_norm_zero(z, d, p);
    }
    lemma_small_mod(n as nat, p as nat);
    crate::modular::lemma_euler_nonsquare(n, p);
}

/// When neither half `(a +- s) / 2` of the square-root algorithm of `Fp4` is a
/// nonzero square in `Fp2`, the element is `a + 0 Y` with `a` a non-square.
#[verifier::rlimit(60)]
pub proof fn lemma_f4_fallback(
    a: (int, int),
    b: (int, int),
    sg: (int, int),
    e: (int, int),
    ti: int,
    h1: (int, int),
    h2: (int, int),
    d: int,
    p: int,
)
    requires
        is_prime(p),
        valid_modulus(p),
        p % 2 == 1,
        0 <= d < p,
        !is_euler_square(d, p),
        f2_reduced(a, p),
        f2_reduced(b, p),
        f2_reduced(sg, p),
        f2_reduced(e, p),
        !is_euler_square(f2_norm(e, d, p), p),
        0 <= ti < p,
        (2 * ti) % p == 1,
        (a, b) != ((0int, 0int), (0int, 0int)),
        f2_mul(sg, sg, d, p) == f2_sub(f2_mul(a, a, d, p), f2_mul(f2_mul(b, b, d, p), e, d, p), p),
        h1 == f2_mul(f2_add(a, sg, p), (ti, 0), d, p),
        h2 == f2_mul(f2_sub(a, sg, p), (ti, 0), d, p),
        h1 == (0int, 0int) || !is_euler_square(f2_norm(h1, d, p), p),
        h2 == (0int, 0int) || !is_euler_square(f2_norm(h2, d, p), p),
    ensures
        b == (0int, 0int),
        a != (0int, 0int),
        !is_euler_square(f2_norm(a, d, p), p),
{
    let m = |u: (int, int), v: (int, int)| f2_mul(u, v, d, p);
    let s = |u: (int, int), v: (int, int)| f2_add(u, v, p);
    let ng = |u: (int, int)| f2_neg(u, p);
    let inv2 = (ti, 0int);
    let zero = (0int, 0int);
    let aa = m(a, a);
    let bbe = m(m(b, b), e);
    let w1 = s(a, sg);
    let w2 = s(a, ng(sg));
    assert(p > 2) by {
        if p == 2 {
            assert(false);
        }
    }
    lemma_small_mod(0, p as nat);
    lemma_f2_neg_facts(a, sg, a, d, p);
    assert(f2_sub(a, sg, p) == w2);
    lemma_f2_neg_facts(aa, bbe, a, d, p);
    lemma_f2_mul_reduced(a, a, d, p);
    lemma_f2_mul_reduced(m(b, b), e, d, p);
    lemma_f2_mul_reduced(w1, inv2, d, p);
    lemma_f2_mul_reduced(w2, inv2, d, p);
    assert(e != zero) by {
        if e == zero {
            assert(f2_norm(e, d, p) == 0) by {
                assert(0int * 0int - d * (0int * 0int) == 0) by (nonlinear_arith);
            }
        }
    }
    assert(inv2 != zero) by {
        if ti == 0 {
            assert(2 * ti == 0);
        }
    }
    if b != zero {
        // w1 w2 == a^2 - s^2 == b^2 e
        lemma_f2_diff_squares(a, sg, d, p);
        lemma_f2_neg_more(aa, ng(bbe), bbe, p);
        lemma_mod_range(-bbe.0, p);
        lemma_mod_range(-bbe.1, p);
        lemma_f2_neg_more(aa, ng(bbe), aa, p);
        assert(ng(m(sg, sg)) == s(ng(aa), bbe));
        lemma_f2_add_assoc(aa, ng(aa), bbe, p);
        lemma_f2_neg_facts(aa, aa, a, d, p);
        lemma_f2_add_comm(ng(aa), aa, p);
        assert(m(w1, w2) == bbe);
        // h1 h2 == e (b inv2)^2
        let v = m(b, inv2);
        lemma_f2_mul3(w1, inv2, m(w2, inv2), d, p);
        lemma_f2_mul_assoc(w1, inv2, m(w2, inv2), d, p);
        lemma_f2_mul_assoc(inv2, w2, inv2, d, p);
        lemma_f2_mul_comm(inv2, w2, d, p);
        lemma_f2_mul_assoc(w2, inv2, inv2, d, p);
        lemma_f2_mul_assoc(w1, w2, m(inv2, inv2), d, p);
        assert(m(h1, h2) == m(bbe, m(inv2, inv2)));
        lemma_f2_mul_comm(m(b, b), e, d, p);
        lemma_f2_mul_assoc(e, m(b, b), m(inv2, inv2), d, p);
        lemma_f2_mul_assoc(b, b, m(inv2, inv2), d, p);
        lemma_f2_mul_assoc(b, inv2, inv2, d, p);
        assert(m(b, m(inv2, inv2)) == m(v, inv2));
        lemma_f2_mul_comm(v, inv2, d, p);
        lemma_f2_mul_assoc(b, inv2, v, d, p);
        assert(m(b, m(inv2, v)) == m(v, v));
        assert(m(m(b, b), m(inv2, inv2)) == m(v, v));
        assert(m(h1, h2) == m(e, m(v, v)));
        // the characters
        lemma_f2_mul_reduced(b, inv2, d, p);
        lemma_f2_mul_reduced(v, v, d, p);
        if v == zero {
            lemma_f2_domain(b, inv2, d, p);
        }
        if m(v, v) == zero {
            lemma_f2_domain(v, v, d, p);
        }
        if m(e, m(v, v)) == zero {
            lemma_f2_domain(e, m(v, v), d, p);
        }
        lemma_f2_character(v, d, p);
        lemma_f2_character(e, d, p);
        lemma_f2_norm_mul(v, v, d, p);
        lemma_f2_norm_mul(e, m(v, v), d, p);
        let nv = f2_norm(v, d, p);
        crate::modular::lemma_square_passes_euler(nv, p);
        crate::modular::lemma_euler_mod(nv * nv, p);
        lemma_f2_character(m(v, v), d, p);
        crate::modular::lemma_euler_mul(f2_norm(e, d, p), f2_norm(m(v, v), d, p), p);
        crate::modular::lemma_sign_product(euler_value(f2_norm(e, d, p), p), euler_value(f2_norm(m(v, v), d, p), p), p);
        let n12 = f2_norm(m(h1, h2), d, p);
        assert(euler_value(n12, p) == p - 1);
        // both halves fail: each character is p - 1
        if h1 == zero || h2 == zero {
            assert(m(h1, h2) == zero) by {
                assert(0int * h2.0 + d * (0int * h2.1) == 0) by (nonlinear_arith);
                assert(0int * h2.1 + 0int * h2.0 == 0) by (nonlinear_arith);
                assert(h1.0 * 0int + d * (h1.1 * 0int) == 0) by (nonlinear_arith);
                assert(h1.0 * 0int + h1.1 * 0int == 0) by (nonlinear_arith);
            }
        }
        lemma_f2_character(h1, d, p);
        lemma_f2_character(h2, d, p);
        lemma_f2_norm_mul(h1, h2, d, p);
        crate::modular::lemma_euler_mul(f2_norm(h1, d, p), f2_norm(h2, d, p), p);
        crate::modular::lemma_sign_product(euler_value(f2_norm(h1, d, p), p), euler_value(f2_norm(h2, d, p), p), p);
        assert(false);
    }
    // b == 0: s^2 == a^2, so s == a or s == -a
    assert(bbe == zero) by {
        assert(m(b, b) == zero) by {
            assert(0int * 0int + d * (0int * 0int) == 0) by (nonlinear_arith);
        }
        assert(0int * e.0 + d * (0int * e.1) == 0) by (nonlinear_arith);
        assert(0int * e.1 + 0int * e.0 == 0) by (nonlinear_arith);
    }
    lemma_f2_neg_more(aa, aa, zero, p);
    assert(ng(zero) == zero);
    lemma_f2_neg_more(aa, aa, aa, p);
    assert(m(sg, sg) == aa);
    lemma_f2_diff_squares(sg, a, d, p);
    lemma_f2_neg_more(aa, aa, aa, p);
    assert(m(s(sg, a), s(sg, ng(a))) == zero);
    lemma_f2_neg_more(sg, a, sg, p);
    lemma_mod_range(sg.0 + a.0, p);
    lemma_mod_range(sg.1 + a.1, p);
    lemma_mod_range(sg.0 - a.0, p);
    lemma_mod_range(sg.1 - a.1, p);
    lemma_mod_range(-a.0, p);
    lemma_mod_range(-a.1, p);
    lemma_mod_range(sg.0 + (-a.0) % p, p);
    lemma_mod_range(sg.1 + (-a.1) % p, p);
    lemma_f2_domain(s(sg, a), s(sg, ng(a)), d, p);
    assert(a != zero);
    lemma_f2_distrib(a, inv2, inv2, d, p);
    lemma_f2_two(a, ti, p);
    lemma_f2_mul_one(a, d, p);
    lemma_f2_distrib(inv2, a, a, d, p);
    lemma_f2_mul_comm(a, inv2, d, p);
    lemma_f2_mul_comm(s(a, a), inv2, d, p);
    assert(m(s(a, a), inv2) == a);
    if s(sg, ng(a)) == zero {
        // sg == a
        lemma_f2_add_assoc(sg, ng(a), a, p);
        lemma_f2_neg_more(sg, a, a, p);
        lemma_f2_add_comm(ng(a), a, p);
        lemma_f2_neg_more(sg, a, sg, p);
        assert(sg == a);
        assert(h1 == a);
    } else {
        // sg == -a
        assert(s(sg, a) == zero);
        lemma_f2_add_assoc(sg, a, ng(a), p);
        lemma_f2_neg_more(sg, a, a, p);
        lemma_f2_neg_more(sg, a, sg, p);
        lemma_f2_neg_more(sg, a, ng(a), p);
        assert(sg == ng(a));
        lemma_f2_neg_more(sg, a, a, p);
        assert(ng(sg) == a);
        assert(w2 == s(a, a));
        assert(h2 == a);
    }
    lemma_f2_character(a, d, p);
}

/// A quotient of two non-squares of `Fp2` is a square.
pub proof fn lemma_f2_quotient_square(a: (int, int), e: (int, int), q: (int, int), d: int, p: int)
    requires
        is_prime(p),
        p % 2 == 1,
        0 <= d < p,
        !is_euler_square(d, p),
        f2_reduced(a, p),
        f2_reduced(e, p),
        f2_reduced(q, p),
        a != (0int, 0int),
        e != (0int, 0int),
        !is_euler_square(f2_norm(a, d, p), p),
        !is_euler_square(f2_norm(e, d, p), p),
        f2_mul(q, e, d, p) == a,
    ensures
        is_euler_square(f2_norm(q, d, p), p),
{
    assert(p > 2) by {
        if p == 2 {
            assert(false);
        }
    }
    lemma_small_mod(0, p as nat);
    if q == (0int, 0int) {
        assert(0int * e.0 + d * (0int * e.1) == 0) by (nonlinear_arith);
        assert(0int * e.1 + 0int * e.0 == 0) by (nonlinear_arith);
    }
    lemma_f2_character(q, d, p);
    lemma_f2_character(e, d, p);
    lemma_f2_character(a, d, p);
    lemma_f2_norm_mul(q, e, d, p);
    crate::modular::lemma_euler_mul(f2_norm(q, d, p), f2_norm(e, d, p), p);
    crate::modular::lemma_sign_product(euler_value(f2_norm(q, d, p), p), euler_value(f2_norm(e, d, p), p), p);
}

/// `(-s)(-s) == s s` in `Fp2`.
proof fn lemma_f2_neg_square(z: (int, int), d: int, p: int)
    requires
        p > 0,
    ensures
        f2_mul(f2_neg(z, p), f2_neg(z, p), d, p) == f2_mul(z, z, d, p),
{
    lemma_f2_mul_neg(f2_neg(z, p), z, d, p);
    lemma_f2_mul_comm(f2_neg(z, p), z, d, p);
    lemma_f2_mul_neg(z, z, d, p);
    lemma_f2_mul_reduced(z, z, d, p);
    lemma_f2_neg_more(z, z, f2_mul(z, z, d, p), p);
}

/// `(a b)(a b) == (a a)(b b)` in `Fp2`.
proof fn lemma_f2_square_of_product(a: (int, int), b: (int, int), d: int, p: int)
    requires
        p > 0,
    ensures
        f2_mul(f2_mul(a, b, d, p), f2_mul(a, b, d, p), d, p) == f2_mul(f2_mul(a, a, d, p), f2_mul(b, b, d, p), d, p),
{
    let m = |u: (int, int), v: (int, int)| f2_mul(u, v, d, p);
    lemma_f2_mul_assoc(a, b, m(a, b), d, p);
    lemma_f2_mul_assoc(b, a, b, d, p);
    lemma_f2_mul_comm(b, a, d, p);
    lemma_f2_mul_assoc(a, b, b, d, p);
    lemma_f2_mul_assoc(a, a, m(b, b), d, p);
}

/// In the field `Fp4` (`p` an odd prime, `d` a non-residue modulo `p` and `e` a
/// non-square of `Fp2`), every nonzero element can be inverted.
pub proof fn lemma_f4_nonzero_invertible(x: F4, d: int, e: (int, int), p: int)
    requires
        is_prime(p),
        p % 2 == 1,
        valid_modulus(p),
        0 <= d < p,
        !is_euler_square(d, p),
        f2_reduced(e, p),
        !is_euler_square(f2_norm(e, d, p), p),
        f2_reduced(x.0, p),
        f2_reduced(x.1, p),
        x != f4_zero(),
    ensures
        f4_invertible(x, d, e, p),
{
    let z = (0int, 0int);
    let m = |u: (int, int), v: (int, int)| f2_mul(u, v, d, p);
    let n = f4_norm(x, d, e, p);
    let a = m(x.0, x.0);
    let b = m(m(x.1, x.1), e);
    lemma_f2_mul_reduced(x.0, x.0, d, p);
    lemma_f2_mul_reduced(x.1, x.1, d, p);
    lemma_f2_mul_reduced(m(x.1, x.1), e, d, p);
    lemma_mod_range(a.0 - b.0, p);
    lemma_mod_range(a.1 - b.1, p);
    if n == z {
        assert(a == b) by {
            crate::modular::lemma_mod_eq_iff_diff(a.0, b.0, p);
            crate::modular::lemma_mod_eq_iff_diff(a.1, b.1, p);
            lemma_small_mod(a.0 as nat, p as nat);
            lemma_small_mod(b.0 as nat, p as nat);
            lemma_small_mod(a.1 as nat, p as nat);
            lemma_small_mod(b.1 as nat, p as nat);
        }
        if x.1 == z {
            assert(m(x.1, x.1) == z) by {
                assert(0int * 0int + d * (0int * 0int) == 0) by (nonlinear_arith);
                lemma_small_mod(0, p as nat);
            }
            assert(b == z) by {
                assert(0int * e.0 + d * (0int * e.1) == 0) by (nonlinear_arith);
                assert(0int * e.1 + 0int * e.0 == 0) by (nonlinear_arith);
                lemma_small_mod(0, p as nat);
            }
            lemma_f2_domain(x.0, x.0, d, p);
            assert(false);
        } else {
            let y = f2_inverse(x.1, d, p);
            lemma_f2_character(x.1, d, p);
            lemma_f2_inverse(x.1, d, p);
            lemma_f2_mul_reduced(x.0, y, d, p);
            let q = m(x.0, y);
            // q q == (x0 x0)(y y) == ((x1 x1) e)(y y) == e ((x1 y)(x1 y)) == e
            lemma_f2_square_of_product(x.0, y, d, p);
            lemma_f2_mul_comm(m(x.1, x.1), e, d, p);
            lemma_f2_mul_assoc(e, m(x.1, x.1), m(y, y), d, p);
            lemma_f2_square_of_product(x.1, y, d, p);
            lemma_f2_mul_one((1, 0), d, p);
            lemma_f2_mul_one(e, d, p);
            assert(m(q, q) == e);
            lemma_f2_norm_mul(q, q, d, p);
            let nq = f2_norm(q, d, p);
            if nq % p != 0 {
                crate::modular::lemma_square_passes_euler(nq, p);
            } else {
                crate::modular::lemma_mul_mod_both(nq, nq, p);
                lemma_small_mod(0, p as nat);
            }
            crate::modular::lemma_euler_mod(nq * nq, p);
            assert(false);
        }
    }
    if f2_norm(n, d, p) == 0 {
        lemma_f2_norm_zero(n, d, p);
    }
}

/// Distinct reduced elements of `Fp4` have a nonzero difference.
pub proof fn lemma_f4_sub_nonzero(a: F4, b: F4, p: int)
    requires
        p > 0,
        f2_reduced(a.0, p),
        f2_reduced(a.1, p),
        f2_reduced(b.0, p),
        f2_reduced(b.1, p),
        a != b,
    ensures
        f4_sub(a, b, p) != f4_zero(),
{
    if f4_sub(a, b, p) == f4_zero() {
        lemma_small_mod(0, p as nat);
        crate::modular::lemma_mod_eq_iff_diff(a.0.0, b.0.0, p);
        crate::modular::lemma_mod_eq_iff_diff(a.0.1, b.0.1, p);
        crate::modular::lemma_mod_eq_iff_diff(a.1.0, b.1.0, p);
        crate::modular::lemma_mod_eq_iff_diff(a.1.1, b.1.1, p);
        lemma_small_mod(a.0.0 as nat, p as nat);
        lemma_small_mod(a.0.1 as nat, p as nat);
        lemma_small_mod(a.1.0 as nat, p as nat);
        lemma_small_mod(a.1.1 as nat, p as nat);
        lemma_small_mod(b.0.0 as nat, p as nat);
        lemma_small_mod(b.0.1 as nat, p as nat);
        lemma_small_mod(b.1.0 as nat, p as nat);
        lemma_small_mod(b.1.1 as nat, p as nat);
    }
}

/// `0 * 0 == 0`, so a nonzero square has a nonzero root.
pub proof fn lemma_f4_root_nonzero(x: F4, d: int, e: (int, int), p: int)
    requires
        p > 0,
        f4_mul(x, x, d, e, p) != f4_zero(),
    ensures
        x != f4_zero(),
{
    if x == f4_zero() {
        lemma_f4_mul_zero(x, d, e, p);
    }
}

/// The inverse of an invertible element is nonzero.
pub proof fn lemma_f4_inverse_nonzero(x: F4, d: int, e: (int, int), p: int)
    requires
        is_prime(p),
        valid_modulus(p),
        f4_invertible(x, d, e, p),
    ensures
        f4_inverse(x, d, e, p) != f4_zero(),
        f2_reduced(f4_inverse(x, d, e, p).0, p),
        f2_reduced(f4_inverse(x, d, e, p).1, p),
{
    lemma_f4_inverse(x, d, e, p);
    let ni = f2_inverse(f4_norm(x, d, e, p), d, p);
    lemma_f2_mul_reduced(x.0, ni, d, p);
    lemma_f2_mul_reduced(f2_neg(x.1, p), ni, d, p);
    if f4_inverse(x, d, e, p) == f4_zero() {
        lemma_f4_mul_zero(x, d, e, p);
    }
}

/// `x * 0 == 0` in `Fp4`.
proof fn lemma_f4_mul_zero(x: F4, d: int, e: (int, int), p: int)
    requires
        p > 0,
    ensures
        f4_mul(x, f4_zero(), d, e, p) == f4_zero(),
{
    let z = (0int, 0int);
    assert forall|u: (int, int)| #[trigger] f2_mul(u, z, d, p) == z by {
        assert(u.0 * 0 + d * (u.1 * 0) == 0) by (nonlinear_arith);
        assert(u.0 * 0 + u.1 * 0 == 0) by (nonlinear_arith);
        lemma_small_mod(0, p as nat);
    }
    assert(f2_mul(f2_mul(x.1, z, d, p), e, d, p) == z) by {
        assert(0int * e.0 + d * (0int * e.1) == 0) by (nonlinear_arith);
        assert(0int * e.1 + 0int * e.0 == 0) by (nonlinear_arith);
        lemma_small_mod(0, p as nat);
    }
    lemma_small_mod(0, p as nat);
}

/// In the field `Fp4`, a product of nonzero elements is nonzero.
pub proof fn lemma_f4_domain(x: F4, y: F4, d: int, e: (int, int), p: int)
    requires
        is_prime(p),
        p % 2 == 1,
        valid_modulus(p),
        0 <= d < p,
        !is_euler_square(d, p),
        f2_reduced(e, p),
        !is_euler_square(f2_norm(e, d, p), p),
        f2_reduced(x.0, p),
        f2_reduced(x.1, p),
        f2_reduced(y.0, p),
        f2_reduced(y.1, p),
        x != f4_zero(),
        y != f4_zero(),
    ensures
        f4_mul(x, y, d, e, p) != f4_zero(),
{
    lemma_f4_nonzero_invertible(x, d, e, p);
    let xi = f4_inverse(x, d, e, p);
    lemma_f4_inverse(x, d, e, p);
    if f4_mul(x, y, d, e, p) == f4_zero() {
        lemma_f4_mul_one(y, d, e, p);
        lemma_f4_mul_comm(y, f4_one(), d, e, p);
        lemma_f4_mul_comm(x, xi, d, e, p);
        lemma_f4_mul_assoc(xi, x, y, d, e, p);
        lemma_f4_mul_zero(xi, d, e, p);
        assert(y == f4_zero());
    }
}

/// The coordinates of `x` are reduced modulo `p`.
pub open spec fn f4_reduced(x: F4, p: int) -> bool {
    f2_reduced(x.0, p) && f2_reduced(x.1, p)
}

/// The parameters `d`, `e`, `p` define the field `Fp4`, as `f4_field` says of
/// the constants that fix them.
pub open spec fn f4_field_params(d: int, e: (int, int), p: int) -> bool {
    &&& is_prime(p)
    &&& p % 2 == 1
    &&& valid_modulus(p)
    &&& 0 <= d < p
    &&& !is_euler_square(d, p)
    &&& f2_reduced(e, p)
    &&& !is_euler_square(f2_norm(e, d, p), p)
}

/// The constants of a field `Fp4` give field parameters.
pub proof fn lemma_f4_field_params(p: u32, d1: u32, d2c0: u32, d2c1: u32)
    requires
        f4_field(p, d1, d2c0, d2c1),
    ensures
        f4_field_params(dmod(d1, p), d2_of(d2c0, d2c1, p), p as int),
{
    lemma_mod_range(d1 as int, p as int);
    lemma_mod_range(d2c0 as int, p as int);
    lemma_mod_range(d2c1 as int, p as int);
}

/// `(x y) / y == x`.
pub proof fn lemma_f4_mul_div(x: F4, y: F4, d: int, e: (int, int), p: int)
    requires
        is_prime(p),
        valid_modulus(p),
        f4_reduced(x, p),
        f4_invertible(y, d, e, p),
    ensures
        f4_mul(f4_mul(x, y, d, e, p), f4_inverse(y, d, e, p), d, e, p) == x,
{
    lemma_f4_mul_assoc(x, y, f4_inverse(y, d, e, p), d, e, p);
    lemma_f4_inverse(y, d, e, p);
    lemma_f4_mul_one(x, d, e, p);
}

/// `(x / y) y == x`.
pub proof fn lemma_f4_div_mul(x: F4, y: F4, d: int, e: (int, int), p: int)
    requires
        is_prime(p),
        valid_modulus(p),
        f4_reduced(x, p),
        f4_invertible(y, d, e, p),
    ensures
        f4_mul(f4_mul(x, f4_inverse(y, d, e, p), d, e, p), y, d, e, p) == x,
{
    lemma_f4_mul_assoc(x, f4_inverse(y, d, e, p), y, d, e, p);
    lemma_f4_mul_comm(f4_inverse(y, d, e, p), y, d, e, p);
    lemma_f4_inverse(y, d, e, p);
    lemma_f4_mul_one(x, d, e, p);
}

/// `(a b)(c g) == (a c)(b g)`.
pub proof fn lemma_f4_mul4(a: F4, b: F4, c: F4, g: F4, d: int, e: (int, int), p: int)
    requires
        p > 0,
    ensures
        f4_mul(f4_mul(a, b, d, e, p), f4_mul(c, g, d, e, p), d, e, p) == f4_mul(f4_mul(a, c, d, e, p), f4_mul(b, g, d, e, p), d, e, p),
{
    let m = |x: F4, y: F4| f4_mul(x, y, d, e, p);
    lemma_f4_mul_assoc(a, b, m(c, g), d, e, p);
    lemma_f4_mul_assoc(b, c, g, d, e, p);
    lemma_f4_mul_comm(b, c, d, e, p);
    lemma_f4_mul_assoc(c, b, g, d, e, p);
    lemma_f4_mul_assoc(a, c, m(b, g), d, e, p);
}

/// `a (b c) == b (a c)`.
pub proof fn lemma_f4_mul_left_comm(a: F4, b: F4, c: F4, d: int, e: (int, int), p: int)
    requires
        p > 0,
    ensures
        f4_mul(a, f4_mul(b, c, d, e, p), d, e, p) == f4_mul(b, f4_mul(a, c, d, e, p), d, e, p),
{
    lemma_f4_mul_assoc(a, b, c, d, e, p);
    lemma_f4_mul_comm(a, b, d, e, p);
    lemma_f4_mul_assoc(b, a, c, d, e, p);
}

/// `x (y + z) == x y + x z` in `Fp4`.
pub proof fn lemma_f4_distrib(x: F4, y: F4, z: F4, d: int, e: (int, int), p: int)
    requires
        p > 0,
    ensures
        f4_mul(x, f4_add(y, z, p), d, e, p) == f4_add(f4_mul(x, y, d, e, p), f4_mul(x, z, d, e, p), p),
{
    let m = |u: (int, int), v: (int, int)| f2_mul(u, v, d, p);
    lemma_f2_distrib(x.0, y.0, z.0, d, p);
    lemma_f2_distrib(x.1, y.1, z.1, d, p);
    lemma_f2_distrib(e, m(x.1, y.1), m(x.1, z.1), d, p);
    lemma_f2_add_shuffle(m(x.0, y.0), m(x.0, z.0), m(m(x.1, y.1), e), m(m(x.1, z.1), e), p);
    lemma_f2_distrib(x.0, y.1, z.1, d, p);
    lemma_f2_distrib(x.1, y.0, z.0, d, p);
    lemma_f2_add_shuffle(m(x.0, y.1), m(x.0, z.1), m(x.1, y.0), m(x.1, z.0), p);
}

/// `x (-y) == -(x y)` in `Fp4`.
pub proof fn lemma_f4_mul_neg(x: F4, y: F4, d: int, e: (int, int), p: int)
    requires
        p > 0,
    ensures
        f4_mul(x, f4_neg(y, p), d, e, p) == f4_neg(f4_mul(x, y, d, e, p), p),
{
    let m = |u: (int, int), v: (int, int)| f2_mul(u, v, d, p);
    let z = (0int, 0int);
    assert(f2_reduced(z, p)) by {
        lemma_small_mod(0, p as nat);
    }
    lemma_f2_mul_neg(x.0, y.0, d, p);
    lemma_f2_mul_neg(x.1, y.1, d, p);
    lemma_f2_mul_comm(f2_neg(m(x.1, y.1), p), e, d, p);
    lemma_f2_mul_neg(e, m(x.1, y.1), d, p);
    lemma_f2_mul_comm(e, m(x.1, y.1), d, p);
    lemma_f2_neg_more(m(x.0, y.0), m(m(x.1, y.1), e), z, p);
    lemma_f2_mul_neg(x.0, y.1, d, p);
    lemma_f2_mul_neg(x.1, y.0, d, p);
    lemma_f2_neg_more(m(x.0, y.1), m(x.1, y.0), z, p);
}

/// `x (y - z) == x y - x z` in `Fp4`.
pub proof fn lemma_f4_mul_sub(x: F4, y: F4, z: F4, d: int, e: (int, int), p: int)
    requires
        p > 0,
    ensures
        f4_mul(x, f4_sub(y, z, p), d, e, p) == f4_sub(f4_mul(x, y, d, e, p), f4_mul(x, z, d, e, p), p),
{
    lemma_f2_neg_facts(y.0, z.0, x.0, d, p);
    lemma_f2_neg_facts(y.1, z.1, x.0, d, p);
    assert(f4_sub(y, z, p) == f4_add(y, f4_neg(z, p), p));
    lemma_f4_distrib(x, y, f4_neg(z, p), d, e, p);
    lemma_f4_mul_neg(x, z, d, e, p);
    let xy = f4_mul(x, y, d, e, p);
    let xz = f4_mul(x, z, d, e, p);
    lemma_f2_neg_facts(xy.0, xz.0, x.0, d, p);
    lemma_f2_neg_facts(xy.1, xz.1, x.0, d, p);
}

/// `s - a == s - b` for reduced `a`, `b` gives `a == b`.
pub proof fn lemma_f4_sub_cancel(s: F4, a: F4, b: F4, p: int)
    requires
        p > 0,
        f4_reduced(a, p),
        f4_reduced(b, p),
        f4_sub(s, a, p) == f4_sub(s, b, p),
    ensures
        a == b,
{
    assert forall|u: int, v: int, w: int| 0 <= v < p && 0 <= w < p && #[trigger] ((u - v) % p) == #[trigger] ((u - w) % p) implies v == w by {
        crate::modular::lemma_mod_eq_iff_diff(u - v, u - w, p);
        assert((u - v) - (u - w) == w - v);
        crate::modular::lemma_mod_eq_iff_diff(w, v, p);
        lemma_small_mod(v as nat, p as nat);
        lemma_small_mod(w as nat, p as nat);
    }
    assert((s.0.0 - a.0.0) % p == (s.0.0 - b.0.0) % p);
    assert((s.0.1 - a.0.1) % p == (s.0.1 - b.0.1) % p);
    assert((s.1.0 - a.1.0) % p == (s.1.0 - b.1.0) % p);
    assert((s.1.1 - a.1.1) % p == (s.1.1 - b.1.1) % p);
}

/// `x - a == x` for reduced `x`, `a` gives `a == 0`.
pub proof fn lemma_f4_sub_eq_self(x: F4, a: F4, p: int)
    requires
        p > 0,
        f4_reduced(x, p),
        f4_reduced(a, p),
        f4_sub(x, a, p) == x,
    ensures
        a == f4_zero(),
{
    lemma_small_mod(0, p as nat);
    assert(f4_sub(x, f4_zero(), p) == x) by {
        lemma_small_mod(x.0.0 as nat, p as nat);
        lemma_small_mod(x.0.1 as nat, p as nat);
        lemma_small_mod(x.1.0 as nat, p as nat);
        lemma_small_mod(x.1.1 as nat, p as nat);
    }
    lemma_f4_sub_cancel(x, a, f4_zero(), p);
}

/// A difference in `Fp4` has reduced coordinates.
pub proof fn lemma_f4_sub_reduced(a: F4, b: F4, p: int)
    requires
        p > 0,
    ensures
        f4_reduced(f4_sub(a, b, p), p),
{
    lemma_mod_range(a.0.0 - b.0.0, p);
    lemma_mod_range(a.0.1 - b.0.1, p);
    lemma_mod_range(a.1.0 - b.1.0, p);
    lemma_mod_range(a.1.1 - b.1.1, p);
}

/// Quartic extension field over `Fp2` defined by the relation `y^2 = D2`.
#[derive(Copy, Clone, Debug, PartialEq, Eq, PartialOrd, Ord, Hash)]
pub struct Fp4<const P: u32, const D1: u32, const D2C0: u32, const D2C1: u32> {
    pub c0: Fp2<P, D1>,
    pub c1: Fp2<P, D1>,
}

impl<const P: u32, const D1: u32, const D2C0: u32, const D2C1: u32> View for Fp4<P, D1, D2C0, D2C1> {
    type V = F4;

    open spec fn view(&self) -> F4 {
        (self.c0@, self.c1@)
    }
}

impl<const P: u32, const D1: u32, const D2C0: u32, const D2C1: u32> Fp4<P, D1, D2C0, D2C1> {
    /// The element `D2` of `Fp2`.
    pub fn d2_fp2() -> (r: Fp2<P, D1>)
        requires
            valid_modulus(P as int),
        ensures
            r@ == d2_of(D2C0, D2C1, P),
    {
        Fp2::<P, D1>::new(Fp::<P>::new(D2C0), Fp::<P>::new(D2C1))
    }

    /// The additive identity.
    pub fn zero() -> (r: Self)
        requires
            valid_modulus(P as int),
        ensures
            r@ == ((0int, 0int), (0int, 0int)),
    {
        Self { c0: Fp2::zero(), c1: Fp2::zero() }
    }

    /// The multiplicative identity.
    pub fn one() -> (r: Self)
        requires
            valid_modulus(P as int),
        ensures
            r@ == ((1int, 0int), (0int, 0int)),
    {
        Self { c0: Fp2::one(), c1: Fp2::zero() }
    }

    pub fn new(c0: Fp2<P, D1>, c1: Fp2<P, D1>) -> (r: Self)
        ensures
            r@ == (c0@, c1@),
    {
        Self { c0, c1 }
    }

    pub fn is_zero(&self) -> (r: bool)
        ensures
            r == (self@ == ((0int, 0int), (0int, 0int))),
    {
        self.c0.is_zero() && self.c1.is_zero()
    }

    pub fn add(self, rhs: Self) -> (r: Self)
        ensures
            r@ == f4_add(self@, rhs@, P as int),
    {
        Self { c0: self.c0.add(rhs.c0), c1: self.c1.add(rhs.c1) }
    }

    pub fn sub(self, rhs: Self) -> (r: Self)
        ensures
            r@ == f4_sub(self@, rhs@, P as int),
    {
        Self { c0: self.c0.sub(rhs.c0), c1: self.c1.sub(rhs.c1) }
    }

    pub fn neg(self) -> (r: Self)
        ensures
            r@ == f4_neg(self@, P as int),
    {
        Self { c0: self.c0.neg(), c1: self.c1.neg() }
    }

    /// Multiplication in Fp4 defined as Fp2[y] / (y^2 - D2)
    /// Formula: (a0 + a1*y)(b0 + b1*y) = (a0*b0 + a1*b1*D2) + (a0*b1 + a1*b0)*y
    pub fn mul(self, rhs: Self) -> (r: Self)
        ensures
            r@ == f4_mul(self@, rhs@, dmod(D1, P), d2_of(D2C0, D2C1, P), P as int),
    {
        let _ = self.c0.c0.value();
        Self {
            c0: self.c0.mul(rhs.c0).add(self.c1.mul(rhs.c1).mul(Self::d2_fp2())),
            c1: self.c0.mul(rhs.c1).add(self.c1.mul(rhs.c0)),
        }
    }

    /// `self^exp`, by square-and-multiply.
    pub fn pow(self, exp: u64) -> (r: Self)
        ensures
            r@ == f4_pow(self@, exp as nat, dmod(D1, P), d2_of(D2C0, D2C1, P), P as int),
    {
        let _ = self.c0.c0.value();
        let ghost a = self@;
        let ghost e0 = exp;
        let ghost d = dmod(D1, P);
        let ghost e = d2_of(D2C0, D2C1, P);
        let ghost op = f4_mul_op(d, e, P as int);
        let ghost one = ((1int, 0int), (0int, 0int));
        let mut base = self;
        let mut exp = exp;
        let mut result = Self::one();
        proof {
            lemma_f4_monoid(d, e, P as int);
            lemma_f4_mul_one(one, d, e, P as int);
            lemma_mpow_unit(op, one, a, e0 as nat);
            lemma_f4_mul_comm(one, mpow(op, one, a, e0 as nat), d, e, P as int);
        }
        while exp > 0
            invariant
                valid_modulus(P as int),
                d == dmod(D1, P),
                e == d2_of(D2C0, D2C1, P),
                one == ((1int, 0int), (0int, 0int)),
                op == f4_mul_op(d, e, P as int),
                monoid_laws(op, one),
                op(result@, one) == result@,
                op(result@, mpow(op, one, base@, exp as nat)) == mpow(op, one, a, e0 as nat),
            decreases exp,
        {
            proof {
                assert(exp & 1 == exp % 2) by (bit_vector);
                assert(exp >> 1 == exp / 2) by (bit_vector);
                lemma_mpow_square_multiply_step(op, one, result@, base@, exp as nat);
            }
            if exp & 1 == 1 {
                let ghost old_result = result@;
                result = result.mul(base);
                proof {
                    assert(op(op(old_result, base@), one) == op(old_result, base@));
                }
            }
            base = base.mul(base);
            exp >>= 1;
        }
        result
    }

    /// Conjugate of the Fp4 element `a - b*y`
    pub fn conjugate(self) -> (r: Self)
        ensures
            r@ == f4_conj(self@, P as int),
    {
        Self { c0: self.c0, c1: self.c1.neg() }
    }

    /// Norm of the Fp4 element `a^2 - b^2 * D2`
    pub fn norm(self) -> (r: Fp2<P, D1>)
        ensures
            r@ == f4_norm(self@, dmod(D1, P), d2_of(D2C0, D2C1, P), P as int),
    {
        let _ = self.c0.c0.value();
        self.c0.mul(self.c0).sub(self.c1.mul(self.c1).mul(Self::d2_fp2()))
    }

    /// Multiplicative inverse using the norm and conjugate
    /// (a + b*y)^-1 = (a - b*y) / (a^2 - b^2*D2); `None` when the element or
    /// its norm cannot be inverted.
    pub fn inverse(self) -> (r: Option<Self>)
        ensures
            r is None <==> (self@ == ((0int, 0int), (0int, 0int)) || f4_norm(self@, dmod(D1, P), d2_of(D2C0, D2C1, P), P as int) == (0int, 0int)
                || f2_norm(f4_norm(self@, dmod(D1, P), d2_of(D2C0, D2C1, P), P as int), dmod(D1, P), P as int) == 0),
            r matches Some(x) ==> x@ == f4_inverse(self@, dmod(D1, P), d2_of(D2C0, D2C1, P), P as int),
            r matches Some(x) ==> (is_prime(P as int) ==> f4_mul(self@, x@, dmod(D1, P), d2_of(D2C0, D2C1, P), P as int)
                == ((1int, 0int), (0int, 0int))),
    {
        let _ = self.c0.c0.value();
        if self.is_zero() {
            return None;
        }
        let norm_inv = match self.norm().inverse() {
            Some(v) => v,
            None => return None,
        };
        let r = Self { c0: self.c0.mul(norm_inv), c1: self.c1.neg().mul(norm_inv) };
        proof {
            if is_prime(P as int) {
                lemma_f4_inverse(self@, dmod(D1, P), d2_of(D2C0, D2C1, P), P as int);
            }
        }
        Some(r)
    }

    /// The inverse of an invertible element; callers exclude the others.
    pub fn inv(self) -> (r: Self)
        requires
            self@ != ((0int, 0int), (0int, 0int)),
            f4_norm(self@, dmod(D1, P), d2_of(D2C0, D2C1, P), P as int) != (0int, 0int),
            f2_norm(f4_norm(self@, dmod(D1, P), d2_of(D2C0, D2C1, P), P as int), dmod(D1, P), P as int) != 0,
        ensures
            r@ == f4_inverse(self@, dmod(D1, P), d2_of(D2C0, D2C1, P), P as int),
            is_prime(P as int) ==> f4_mul(self@, r@, dmod(D1, P), d2_of(D2C0, D2C1, P), P as int)
                == ((1int, 0int), (0int, 0int)),
    {
        match self.inverse() {
            Some(x) => x,
            None => {
                proof {
                    assert(false);
                }
                self
            },
        }
    }

    /// `self * rhs^-1`, or `None` when `rhs` cannot be inverted.
    pub fn checked_div(self, rhs: Self) -> (r: Option<Self>)
        ensures
            r is None <==> (rhs@ == ((0int, 0int), (0int, 0int)) || f4_norm(rhs@, dmod(D1, P), d2_of(D2C0, D2C1, P), P as int) == (0int, 0int)
                || f2_norm(f4_norm(rhs@, dmod(D1, P), d2_of(D2C0, D2C1, P), P as int), dmod(D1, P), P as int) == 0),
            r matches Some(q) ==> q@ == f4_mul(self@, f4_inverse(rhs@, dmod(D1, P), d2_of(D2C0, D2C1, P), P as int), dmod(D1, P), d2_of(D2C0, D2C1, P), P as int),
            r matches Some(q) ==> (is_prime(P as int) ==> f4_mul(q@, rhs@, dmod(D1, P), d2_of(D2C0, D2C1, P), P as int) == self@),
    {
        match rhs.inverse() {
            Some(inv) => {
                let q = self.mul(inv);
                self.reduced();
                proof {
                    let d = dmod(D1, P);
                    let e = d2_of(D2C0, D2C1, P);
                    let p = P as int;
                    if is_prime(p) {
                        lemma_f4_mul_assoc(self@, inv@, rhs@, d, e, p);
                        lemma_f4_mul_comm(inv@, rhs@, d, e, p);
                        lemma_f4_mul_one(self@, d, e, p);
                    }
                }
                Some(q)
            },
            None => None,
        }
    }

    /// The integer `v` as an element of `Fp4`.
    pub(crate) fn of_u32(v: u32) -> (r: Self)
        requires
            valid_modulus(P as int),
        ensures
            r@ == f4_const(v as int, P as int),
    {
        Self { c0: Fp2::new(Fp::new(v), Fp::zero()), c1: Fp2::zero() }
    }

    /// Whether two elements are equal.
    pub(crate) fn same_as(&self, other: &Self) -> (r: bool)
        ensures
            r == (self@ == other@),
    {
        self.c0.c0.value() == other.c0.c0.value() && self.c0.c1.value() == other.c0.c1.value()
            && self.c1.c0.value() == other.c1.c0.value() && self.c1.c1.value() == other.c1.c1.value()
    }

    /// The coordinates of an element are reduced, and `P` is a valid modulus.
    pub(crate) fn reduced(&self)
        ensures
            f2_reduced(self@.0, P as int),
            f2_reduced(self@.1, P as int),
            valid_modulus(P as int),
    {
        self.c0.reduced();
        self.c1.reduced();
    }

    /// Division by an invertible element; callers exclude the others.
    pub fn div(self, rhs: Self) -> (r: Self)
        requires
            rhs@ != ((0int, 0int), (0int, 0int)),
            f4_norm(rhs@, dmod(D1, P), d2_of(D2C0, D2C1, P), P as int) != (0int, 0int),
            f2_norm(f4_norm(rhs@, dmod(D1, P), d2_of(D2C0, D2C1, P), P as int), dmod(D1, P), P as int) != 0,
        ensures
            r@ == f4_mul(self@, f4_inverse(rhs@, dmod(D1, P), d2_of(D2C0, D2C1, P), P as int), dmod(D1, P), d2_of(D2C0, D2C1, P), P as int),
            is_prime(P as int) ==> f4_mul(r@, rhs@, dmod(D1, P), d2_of(D2C0, D2C1, P), P as int) == self@,
    {
        match self.checked_div(rhs) {
            Some(q) => q,
            None => {
                proof {
                    assert(false);
                }
                self
            },
        }
    }
}

impl<const P: u32, const D1: u32, const D2C0: u32, const D2C1: u32> Fp4<P, D1, D2C0, D2C1> {
    /// A square root of `-1`, found by `sqrt`.
    pub fn imaginary_unit() -> (r: Self)
        requires
            f4_field(P, D1, D2C0, D2C1),
        ensures
            f4_is_imag(r@, dmod(D1, P), d2_of(D2C0, D2C1, P), P as int),
            r@ == f4_imag_value(dmod(D1, P), d2_of(D2C0, D2C1, P), P as int),
    {
        let ghost p = P as int;
        let ghost d = dmod(D1, P);
        let ghost e = d2_of(D2C0, D2C1, P);
        let m1 = Self::new(Fp2::new(Fp::new(P - 1), Fp::zero()), Fp2::zero());
        proof {
            lemma_small_mod((P - 1) as nat, P as nat);
            lemma_small_mod(0, P as nat);
            lemma_small_mod(1, P as nat);
            let q = p - 2;
            assert((p - 1) * (p - 1) - q * p == 1) by (nonlinear_arith)
                requires
                    q == p - 2,
            ;
            crate::modular::lemma_mod_by_quotient((p - 1) * (p - 1), p, q);
            assert((p - 1) * (p - 1) + d * (0int * 0int) == (p - 1) * (p - 1)) by (nonlinear_arith);
            assert((p - 1) * 0 + 0 * (p - 1) == 0) by (nonlinear_arith);
            assert(0int * 0 + d * (0int * 0) == 0) by (nonlinear_arith);
            assert(0int * e.0 + d * (0int * e.1) == 0) by (nonlinear_arith);
            assert(0int * e.1 + 0int * e.0 == 0) by (nonlinear_arith);
            assert(f4_norm(m1@, d, e, p) == (1int, 0int));
            assert(1int * 1 - d * (0int * 0) == 1) by (nonlinear_arith);
            vstd::arithmetic::power::lemma1_pow(((p - 1) / 2) as nat);
            assert(is_euler_square(f2_norm((1int, 0int), d, p), p));
        }
        match m1.sqrt() {
            Some(x) => x,
            None => {
                proof {
                    assert(false);
                }
                m1
            },
        }
    }
}

impl<const P: u32, const D1: u32, const D2C0: u32, const D2C1: u32> Fp4<P, D1, D2C0, D2C1> {
    /// Square root in Fp4: `x + y Y` with `(x + y Y)^2 = a + b Y`, or `None`
    /// when the norm `a^2 - D2 b^2` is not a square in `Fp2`. The fields need
    /// `P` an odd prime, `D1` a non-residue modulo `P` and `D2` a non-square in
    /// `Fp2`.
    pub fn sqrt(self) -> (r: Option<Self>)
        requires
            is_prime(P as int),
            P % 2 == 1,
            valid_modulus(P as int),
            !is_euler_square(dmod(D1, P), P as int),
            !is_euler_square(f2_norm(d2_of(D2C0, D2C1, P), dmod(D1, P), P as int), P as int),
        ensures
            r is None <==> !is_euler_square(
                f2_norm(f4_norm(self@, dmod(D1, P), d2_of(D2C0, D2C1, P), P as int), dmod(D1, P), P as int),
                P as int,
            ),
            r matches Some(x) ==> f4_mul(x@, x@, dmod(D1, P), d2_of(D2C0, D2C1, P), P as int) == self@,
            r matches Some(x) ==> x@ == fp4_sqrt_value(self@, dmod(D1, P), d2_of(D2C0, D2C1, P), P as int),
    {
        proof {
            reveal(fp4_sqrt_value);
        }
        let ghost p = P as int;
        let ghost d = dmod(D1, P);
        let ghost e = d2_of(D2C0, D2C1, P);
        let ghost zero = (0int, 0int);
        self.reduced();
        proof {
            lemma_mod_range(D1 as int, p);
            lemma_mod_range(D2C0 as int, p);
            lemma_mod_range(D2C1 as int, p);
            lemma_small_mod(0, P as nat);
        }
        if self.is_zero() {
            proof {
                assert(0int * 0int + d * (0int * 0int) == 0) by (nonlinear_arith);
                assert(0int * 0int + 0int * 0int == 0) by (nonlinear_arith);
                assert(f2_mul(zero, zero, d, p) == zero);
                assert(0int * e.0 + d * (0int * e.1) == 0) by (nonlinear_arith);
                assert(0int * e.1 + 0int * e.0 == 0) by (nonlinear_arith);
                assert(f2_mul(zero, e, d, p) == zero);
                assert(f4_norm(self@, d, e, p) == zero);
                assert(0int * 0int - d * (0int * 0int) == 0) by (nonlinear_arith);
            }
            return Some(Self::zero());
        }
        let norm_sqrt = match self.norm().sqrt() {
            Some(v) => v,
            None => return None,
        };
        norm_sqrt.reduced();
        let a = self.c0;
        let b = self.c1;
        let ti = Fp::<P>::two_inv();
        let _ = ti.value();
        let two_inv = Fp2::<P, D1>::new(ti, Fp::<P>::zero());
        let h1 = a.add(norm_sqrt).mul(two_inv);
        let ghost fail1: bool;
        match h1.sqrt() {
            Some(x) => {
                x.reduced();
                if !x.is_zero() {
                    proof {
                        lemma_f2_two(x@, ti@, p);
                        lemma_f2_character(f2_add(x@, x@, p), d, p);
                    }
                    let y = b.div(x.add(x));
                    y.reduced();
                    proof {
                        lemma_f4_attempt(a@, b@, norm_sqrt@, e, ti@, h1@, x@, y@, d, p);
                        assert(Self { c0: x, c1: y }@ == fp4_sqrt_value(self@, d, e, p));
                    }
                    return Some(Self { c0: x, c1: y });
                }
                proof {
                    assert(0int * 0int + d * (0int * 0int) == 0) by (nonlinear_arith);
                    assert(0int * 0int + 0int * 0int == 0) by (nonlinear_arith);
                    assert(h1@ == zero);
                }
            },
            None => {},
        }
        let h2 = a.sub(norm_sqrt).mul(two_inv);
        match h2.sqrt() {
            Some(x) => {
                x.reduced();
                if !x.is_zero() {
                    proof {
                        lemma_f2_two(x@, ti@, p);
                        lemma_f2_character(f2_add(x@, x@, p), d, p);
                    }
                    let y = b.div(x.add(x));
                    y.reduced();
                    proof {
                        let ns = f2_neg(norm_sqrt@, p);
                        lemma_mod_range(-norm_sqrt@.0, p);
                        lemma_mod_range(-norm_sqrt@.1, p);
                        lemma_f2_neg_square(norm_sqrt@, d, p);
                        lemma_f2_neg_facts(a@, norm_sqrt@, a@, d, p);
                        lemma_f4_attempt(a@, b@, ns, e, ti@, h2@, x@, y@, d, p);
                        assert(!(is_euler_square(f2_norm(h1@, d, p), p) && fp2_sqrt_value(h1@, d, p) != zero));
                        assert(Self { c0: x, c1: y }@ == fp4_sqrt_value(self@, d, e, p));
                    }
                    return Some(Self { c0: x, c1: y });
                }
                proof {
                    assert(0int * 0int + d * (0int * 0int) == 0) by (nonlinear_arith);
                    assert(0int * 0int + 0int * 0int == 0) by (nonlinear_arith);
                    assert(h2@ == zero);
                }
            },
            None => {},
        }
        let d2 = Self::d2_fp2();
        proof {
            lemma_f4_fallback(a@, b@, norm_sqrt@, e, ti@, h1@, h2@, d, p);
            assert(e != zero && f2_norm(e, d, p) != 0) by {
                if e == zero {
                    assert(0int * 0int - d * (0int * 0int) == 0) by (nonlinear_arith);
                }
            }
        }
        let q = a.div(d2);
        q.reduced();
        proof {
            lemma_f2_quotient_square(a@, e, q@, d, p);
        }
        match q.sqrt() {
            Some(y) => {
                y.reduced();
                let r = Self { c0: Fp2::zero(), c1: y };
                proof {
                    assert(0int * 0int + d * (0int * 0int) == 0) by (nonlinear_arith);
                    assert(0int * 0int + 0int * 0int == 0) by (nonlinear_arith);
                    assert(0int * y@.0 + d * (0int * y@.1) == 0) by (nonlinear_arith);
                    assert(0int * y@.1 + 0int * y@.0 == 0) by (nonlinear_arith);
                    assert(y@.0 * 0int + d * (y@.1 * 0int) == 0) by (nonlinear_arith);
                    assert(y@.0 * 0int + y@.1 * 0int == 0) by (nonlinear_arith);
                    lemma_f2_mul_reduced(q@, e, d, p);
                    lemma_f2_neg_more(zero, zero, f2_mul(q@, e, d, p), p);
                    assert(!(is_euler_square(f2_norm(h1@, d, p), p) && fp2_sqrt_value(h1@, d, p) != zero));
                    assert(!(is_euler_square(f2_norm(h2@, d, p), p) && fp2_sqrt_value(h2@, d, p) != zero));
                    assert(r@ == fp4_sqrt_value(self@, d, e, p));
                }
                Some(r)
            },
            None => {
                proof {
                    assert(false);
                }
                None
            },
        }
    }
}

} // verus!
