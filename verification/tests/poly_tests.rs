use g2_isogeny::fq::Fp;
use g2_isogeny::poly::Polynomial;

type F = Fp<7>;
type Poly = Polynomial<F>;

fn n(v: u32) -> F {
    F::new(v)
}

#[test]
fn test_normalize() {
    // [1, 2, 0, 0] -> [1, 2] (trim trailing zeros)
    let p = Poly::new(vec![n(1), n(2), n(0), n(0)]);
    assert_eq!(p.coeffs, vec![n(1), n(2)]);
    assert_eq!(p.degree(), 1);

    // [0, 0] -> [] (zero polynomial)
    let zero = Poly::new(vec![n(0), n(0)]);
    assert!(zero.is_zero());
    assert!(zero.coeffs.is_empty());
}

#[test]
fn test_arithmetic() {
    // p1 = x + 1 ([1, 1])
    let p1 = Poly::new(vec![n(1), n(1)]);
    // p2 = x + 6 (equivalently x - 1) ([6, 1])
    let p2 = Poly::new(vec![n(6), n(1)]);

    // Addition: (x + 1) + (x + 6) = 2x + 7 = 2x ([0, 2]) in F7
    let sum = p1.add(&p2);
    assert_eq!(sum.coeffs, vec![n(0), n(2)]);

    // Multiplication: (x + 1)(x - 1) = x^2 - 1 = x^2 + 6 ([6, 0, 1]) in F7
    let prod = p1.mul(&p2);
    assert_eq!(prod.coeffs, vec![n(6), n(0), n(1)]);
}

#[test]
fn test_derivative() {
    // f = 3x^2 + 2x + 5 ([5, 2, 3])
    let f = Poly::new(vec![n(5), n(2), n(3)]);

    // f' = 6x + 2 ([2, 6])
    let diff = f.derivative();
    assert_eq!(diff.coeffs, vec![n(2), n(6)]);
}

#[test]
fn test_gcd() {
    // A = (x-1)(x-2) = x^2 - 3x + 2 = x^2 + 4x + 2
    let a = Poly::new(vec![n(2), n(4), n(1)]);

    // B = (x-1)(x-3) = x^2 - 4x + 3 = x^2 + 3x + 3
    let b = Poly::new(vec![n(3), n(3), n(1)]);

    // GCD should be x-1 = x+6
    let gcd = Poly::gcd(&a, &b);
    assert_eq!(gcd.coeffs, vec![n(6), n(1)]);
}

#[test]
fn subtraction_and_negation_cancel() {
    let p = Poly::new(vec![n(3), n(0), n(5)]);
    let q = Poly::new(vec![n(1), n(4)]);
    assert_eq!(p.sub(&q).coeffs, vec![n(2), n(3), n(5)]);
    assert!(p.sub(&p).is_zero());
    assert!(p.add(&p.neg()).is_zero());
    assert_eq!(q.neg().coeffs, vec![n(6), n(3)]);
}

#[test]
fn constants_and_coefficients() {
    assert!(Poly::constant(n(0)).is_zero());
    assert_eq!(Poly::constant(n(3)).coeffs, vec![n(3)]);
    assert_eq!(Poly::one().coeffs, vec![n(1)]);
    assert!(Poly::zero().is_zero());
    assert_eq!(Poly::zero().degree(), 0);
    let p = Poly::new(vec![n(3), n(0), n(5)]);
    assert_eq!(p.coeff(2), n(5));
    assert_eq!(p.coeff(9), n(0));
    assert!(p.mul(&Poly::zero()).is_zero());
}

#[test]
fn long_division() {
    // x^2 + 6 = (x + 6)(x + 1) in F7
    let a = Poly::new(vec![n(6), n(0), n(1)]);
    let d = Poly::new(vec![n(1), n(1)]);
    let (q, r) = a.div_rem(&d);
    assert_eq!(q.coeffs, vec![n(6), n(1)]);
    assert!(r.is_zero());
    // x^2 + 1 = (x + 6)(x + 1) + 2
    let b = Poly::new(vec![n(1), n(0), n(1)]);
    let (q, r) = b.div_rem(&d);
    assert_eq!(q.coeffs, vec![n(6), n(1)]);
    assert_eq!(r.coeffs, vec![n(2)]);
    assert_eq!(b.rem(&d).coeffs, vec![n(2)]);
    // a divisor of higher degree leaves everything in the remainder
    let (q, r) = d.div_rem(&b);
    assert!(q.is_zero());
    assert_eq!(r, d);
    // q d + r gives back the dividend
    let c = Poly::new(vec![n(4), n(1), n(3), n(6)]);
    let e = Poly::new(vec![n(2), n(0), n(5)]);
    let (q, r) = c.div_rem(&e);
    assert_eq!(q.mul(&e).add(&r), c);
    assert!(r.degree() < e.degree());
}

#[test]
fn make_monic_divides_by_the_leading_coefficient() {
    let mut p = Poly::new(vec![n(4), n(2)]);
    p.make_monic();
    assert_eq!(p.coeffs, vec![n(2), n(1)]);
    let mut z = Poly::zero();
    z.make_monic();
    assert!(z.is_zero());
}

#[test]
fn gcd_of_coprime_polynomials_is_one() {
    let a = Poly::new(vec![n(1), n(1)]);
    let b = Poly::new(vec![n(2), n(1)]);
    assert_eq!(Poly::gcd(&a, &b).coeffs, vec![n(1)]);
    assert_eq!(Poly::gcd(&a, &Poly::zero()).coeffs, vec![n(1), n(1)]);
}

#[test]
fn multiplication_is_commutative_associative_and_unital() {
    let a = Poly::new(vec![n(3), n(5), n(1)]);
    let b = Poly::new(vec![n(6), n(2)]);
    let c = Poly::new(vec![n(1), n(0), n(4), n(2)]);
    assert_eq!(a.mul(&b), b.mul(&a));
    assert_eq!(a.mul(&b).mul(&c), a.mul(&b.mul(&c)));
    assert_eq!(a.mul(&Poly::one()), a);
    // (3 + 5x + x^2)(6 + 2x) = 18 + 36x + 16x^2 + 2x^3
    assert_eq!(a.mul(&b).coeffs, vec![n(4), n(1), n(2), n(2)]);
}

#[test]
fn powers_by_square_and_multiply() {
    let p = Poly::new(vec![n(1), n(1)]);
    assert_eq!(p.pow(3).coeffs, vec![n(1), n(3), n(3), n(1)]);
    assert_eq!(p.pow(0).coeffs, vec![n(1)]);
    assert_eq!(p.pow(7).coeffs, vec![n(1), n(0), n(0), n(0), n(0), n(0), n(0), n(1)]);
    let q = Poly::new(vec![n(2), n(0), n(5)]);
    assert_eq!(q.pow(5), q.mul(&q).mul(&q).mul(&q).mul(&q));
    assert!(Poly::zero().pow(4).is_zero());
    assert_eq!(Poly::zero().pow(0).coeffs, vec![n(1)]);
}

#[test]
fn test_pow_mod_small_modulus() {
    // x^7 mod (x^2 + 1) over F7: x^7 = x (x^2)^3 = -x = 6x
    let x = Poly::new(vec![n(0), n(1)]);
    let m = Poly::new(vec![n(1), n(0), n(1)]);
    assert_eq!(x.pow_mod(7, &m).coeffs, vec![n(0), n(6)]);
    // x^48 = (x^2)^24 = 1
    assert_eq!(x.pow_mod(48, &m).coeffs, vec![n(1)]);
    // exponent 0 gives 1
    assert_eq!(x.pow_mod(0, &m).coeffs, vec![n(1)]);
}

#[test]
fn test_pow_mod_agrees_with_pow_then_rem() {
    let a = Poly::new(vec![n(3), n(1), n(5)]);
    let m = Poly::new(vec![n(1), n(1), n(0), n(1)]);
    for e in 0u128..20 {
        let expected = if e == 0 { Poly::one() } else { a.pow(e).rem(&m) };
        assert_eq!(a.pow_mod(e, &m).coeffs, expected.coeffs, "exponent {}", e);
    }
}

#[test]
fn test_pow_mod_constant_modulus() {
    // every polynomial is a multiple of a nonzero constant
    let a = Poly::new(vec![n(1), n(1)]);
    let m = Poly::new(vec![n(3)]);
    assert!(a.pow_mod(2, &m).is_zero());
    assert!(a.pow_mod(5, &m).is_zero());
    assert_eq!(a.pow_mod(0, &m).coeffs, vec![n(1)]);
}

#[test]
fn quotient_and_remainder_are_trimmed() {
    // (x^3 + 2x + 5) / (x^2 + 1) over F7
    let a = Poly::new(vec![n(5), n(2), n(0), n(1)]);
    let b = Poly::new(vec![n(1), n(0), n(1)]);
    let (q, r) = a.div_rem(&b);
    assert_eq!(q.coeffs, vec![n(0), n(1)]);
    assert_eq!(r.coeffs, vec![n(5), n(1)]);
    // a divisor of higher degree leaves a zero quotient with no coefficients
    let (q, r) = b.div_rem(&a);
    assert!(q.coeffs.is_empty());
    assert_eq!(r.coeffs, b.coeffs);
}

#[test]
fn test_roots() {
    // f(x) = (x - 1)(x - 2)(x - 3) = x^3 - 6x^2 + 11x - 6 = x^3 + x^2 + 4x + 1 mod 7
    let p = Poly::new(vec![n(1), n(4), n(1), n(1)]);

    let mut roots = p.roots();
    roots.sort_by_key(|a| a.value()); // Sort results for comparison

    // Expected roots: 1, 2, 3
    assert_eq!(roots, vec![n(1), n(2), n(3)]);
}

#[test]
fn test_roots_with_no_solution() {
    // g(x) = x^2 + 1 (no solution in P=7; since 3^2=2 and 4^2=2, -1(=6) never occurs)
    let p = Poly::new(vec![n(1), n(0), n(1)]);

    let roots = p.roots();
    assert!(roots.is_empty());
}

#[test]
fn roots_of_a_double_root_appear_once() {
    // (x - 2)^2 = x^2 - 4x + 4 = x^2 + 3x + 4 mod 7
    let p = Poly::new(vec![n(4), n(3), n(1)]);
    assert_eq!(p.roots(), vec![n(2)]);
}

#[test]
fn eval_uses_horners_rule() {
    // x^2 + 3x + 4 at 3: 9 + 9 + 4 = 22 = 1 mod 7
    let p = Poly::new(vec![n(4), n(3), n(1)]);
    assert_eq!(p.eval(n(3)), n(1));
}
