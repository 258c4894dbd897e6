use g2_isogeny::fq::{Fp, Fp2, Fp4};

const P: u32 = 17;
const D1: u32 = 3;
const D2C0: u32 = 0;
const D2C1: u32 = 1;

fn fp2(c0: u32, c1: u32) -> Fp2<P, D1> {
    Fp2::<P, D1>::new(Fp::<P>::new(c0), Fp::<P>::new(c1))
}

fn fp4(a: u32, b: u32, c: u32, d: u32) -> Fp4<P, D1, D2C0, D2C1> {
    Fp4::<P, D1, D2C0, D2C1>::new(fp2(a, b), fp2(c, d))
}

#[test]
fn test_fp_inverse() {
    let a = Fp::<P>::new(5);
    let a_inv = a.inv();
    assert_eq!(a.mul(a_inv), Fp::<P>::new(1));
}

#[test]
fn test_fp_sqrt() {
    let a = Fp::<P>::new(4);
    let a_sq = a.mul(a);
    let a_sqrt = a_sq.sqrt().unwrap();
    assert_eq!(a_sq, a_sqrt.mul(a_sqrt));
}

#[test]
fn test_fp2_inverse() {
    let a = fp2(5, 1);
    let a_inv = a.inv();
    assert_eq!(a.mul(a_inv), fp2(1, 0));
}

#[test]
fn test_fp2_sqrt() {
    let a = fp2(5, 1);
    let a_sq = a.mul(a);
    let a_sqrt = a_sq.sqrt().unwrap();
    assert_eq!(a_sq, a_sqrt.mul(a_sqrt));
}

#[test]
fn test_fp4_inverse() {
    let a = fp4(2, 1, 3, 4);
    let a_inv = a.inv();
    assert_eq!(a.mul(a_inv), fp4(1, 0, 0, 0));
}

#[test]
fn fp_arithmetic_reduces_modulo_p() {
    let a = Fp::<P>::new(30);
    assert_eq!(a.value(), 13);
    assert_eq!(a.add(Fp::<P>::new(10)).value(), 6);
    assert_eq!(Fp::<P>::new(3).sub(Fp::<P>::new(5)).value(), 15);
    assert_eq!(Fp::<P>::new(3).neg().value(), 14);
    assert_eq!(Fp::<P>::new(0).neg().value(), 0);
    assert_eq!(Fp::<P>::new(6).mul(Fp::<P>::new(7)).value(), 8);
    assert_eq!(Fp::<P>::new(3).pow(4).value(), 13);
    assert_eq!(Fp::<P>::new(3).pow(0).value(), 1);
    assert!(Fp::<P>::new(17).is_zero());
}

#[test]
fn fp_inverse_of_zero_is_none() {
    assert!(Fp::<P>::new(0).inverse().is_none());
    assert!(Fp::<P>::new(4).checked_div(Fp::<P>::new(0)).is_none());
    assert_eq!(Fp::<P>::new(4).inverse().unwrap().value(), 13);
    assert_eq!(Fp::<P>::new(8).div(Fp::<P>::new(4)).value(), 2);
}

#[test]
fn fp_squares_and_non_residues() {
    // the squares modulo 17 are 1, 2, 4, 8, 9, 13, 15, 16
    assert!(Fp::<P>::new(2).is_square());
    assert!(!Fp::<P>::new(3).is_square());
    assert!(Fp::<P>::new(0).is_square());
    assert_eq!(Fp::<P>::new(2).legendre_symbol(), 1);
    assert_eq!(Fp::<P>::new(3).legendre_symbol(), -1);
    assert_eq!(Fp::<P>::new(0).legendre_symbol(), 0);
    assert_eq!(Fp::<P>::find_non_residue(), 3);
    assert!(Fp::<P>::new(3).sqrt().is_none());
    let r = Fp::<P>::new(2).sqrt().unwrap();
    assert_eq!(r.mul(r).value(), 2);
}

#[test]
fn fp_sqrt_for_p_three_mod_four() {
    // 19 % 4 == 3: the root is a^((19 + 1) / 4) = a^5
    let a = Fp::<19>::new(5);
    let r = a.sqrt().unwrap();
    assert_eq!(r, a.pow(5));
    assert_eq!(r.mul(r), a);
}

#[test]
fn fp2_arithmetic() {
    // x^2 = 3 in Fp2 over F_17
    let x = fp2(0, 1);
    assert_eq!(x.mul(x), fp2(3, 0));
    assert_eq!(fp2(1, 2).add(fp2(16, 16)), fp2(0, 1));
    assert_eq!(fp2(1, 2).sub(fp2(2, 3)), fp2(16, 16));
    assert_eq!(fp2(1, 2).neg(), fp2(16, 15));
    assert_eq!(fp2(1, 2).conjugate(), fp2(1, 15));
    // norm(1 + 2x) = 1 - 3 * 4 = -11 = 6
    assert_eq!(fp2(1, 2).norm().value(), 6);
    assert_eq!(x.pow(2), fp2(3, 0));
    assert_eq!(x.pow(0), fp2(1, 0));
    assert!(fp2(0, 0).inverse().is_none());
    let q = fp2(5, 1).div(fp2(1, 2));
    assert_eq!(q.mul(fp2(1, 2)), fp2(5, 1));
}

#[test]
fn fp2_square_roots() {
    assert!(fp2(0, 0).sqrt().unwrap().is_zero());
    // 3 is a non-residue in F_17 but a square in Fp2 (it is x^2)
    let r = fp2(3, 0).sqrt().unwrap();
    assert_eq!(r.mul(r), fp2(3, 0));
    // every element of F_17 is a square in Fp2
    for c in 0..17 {
        let a = fp2(c, 0);
        let r = a.sqrt().unwrap();
        assert_eq!(r.mul(r), a);
    }
    // the non-residue found by the search has no root
    let (c0, c1) = Fp2::<P, D1>::find_non_residue();
    let n = fp2(c0, c1);
    assert!(!n.is_square());
    assert!(n.sqrt().is_none());
}

#[test]
fn fp4_arithmetic() {
    // y^2 = D2 = x in Fp4
    let y = fp4(0, 0, 1, 0);
    assert_eq!(y.mul(y), fp4(0, 1, 0, 0));
    assert_eq!(fp4(1, 2, 3, 4).add(fp4(16, 15, 14, 13)), fp4(0, 0, 0, 0));
    assert_eq!(fp4(1, 2, 3, 4).neg(), fp4(16, 15, 14, 13));
    assert_eq!(fp4(1, 2, 3, 4).conjugate(), fp4(1, 2, 14, 13));
    assert!(fp4(0, 0, 0, 0).inverse().is_none());
    let q = fp4(5, 1, 2, 7).div(fp4(2, 1, 3, 4));
    assert_eq!(q.mul(fp4(2, 1, 3, 4)), fp4(5, 1, 2, 7));
}

#[test]
fn test_fp4_sqrt() {
    let a = fp4(2, 1, 3, 4);
    let a_sq = a.mul(a);
    let a_sqrt = a_sq.sqrt().unwrap();
    assert_eq!(a_sq, a_sqrt.mul(a_sqrt));
}

#[test]
fn fp4_square_roots_and_powers() {
    assert!(fp4(0, 0, 0, 0).sqrt().unwrap().is_zero());
    // every element of Fp2 is a square in Fp4
    for c0 in 0..17 {
        for c1 in [0, 1, 5] {
            let a = fp4(c0, c1, 0, 0);
            let r = a.sqrt().unwrap();
            assert_eq!(r.mul(r), a);
        }
    }
    // y = sqrt(D2) is not a square... its square is
    let y = fp4(0, 0, 1, 0);
    let r = y.mul(y).sqrt().unwrap();
    assert_eq!(r.mul(r), y.mul(y));
    let a = fp4(2, 1, 3, 4);
    assert_eq!(a.pow(3), a.mul(a).mul(a));
    assert_eq!(a.pow(0), fp4(1, 0, 0, 0));
    // the norm of a + b y is a^2 - D2 b^2
    assert_eq!(fp4(1, 0, 1, 0).norm(), fp2(1, 16));
}

#[test]
fn signed_integers_reduce_to_least_residues() {
    assert_eq!(Fp::<7>::from_i32(-1).value(), 6);
    assert_eq!(Fp::<7>::from_i32(-7).value(), 0);
    assert_eq!(Fp::<7>::from_i32(-8).value(), 6);
    assert_eq!(Fp::<7>::from_i32(10).value(), 3);
    for v in [i32::MIN, -1_000_003, -13, 0, 5, 1_000_003, i32::MAX] {
        let expected = (v as i64).rem_euclid(101) as u32;
        assert_eq!(Fp::<101>::from_i32(v).value(), expected, "value {}", v);
    }
}

#[test]
fn norm_is_the_product_with_the_conjugate_and_multiplicative() {
    type G = Fp2<17, 3>;
    let g = |a: u32, b: u32| G::new(Fp::<17>::new(a), Fp::<17>::new(b));
    for (a0, a1, b0, b1) in [(1, 2, 3, 4), (5, 0, 7, 11), (16, 16, 2, 9), (0, 0, 4, 4)] {
        let a = g(a0, a1);
        let b = g(b0, b1);
        assert_eq!(a.mul(a.conjugate()), G::new(a.norm(), Fp::<17>::zero()));
        assert_eq!(a.mul(b).norm(), a.norm().mul(b.norm()));
    }
}
