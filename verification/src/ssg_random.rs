//! Random supersingular, non-superspecial genus-2 curves: a monic quintic
//! `x^5 + c3 x^3 + c2 x^2 + c1 x + c0` over `Fp` is drawn until it has no
//! repeated root and its Cartier–Manin matrix is nonzero and nilpotent, and
//! its roots in `Fp4` give the Rosenhain form.
use crate::fp4::{d2_of, f4_add, f4_field, f4_mul, f4_one, f4_pow, f4_zero, F4, Fp4};
use crate::fq::{dmod, Fp, Fp2};
use crate::modular::is_prime;
use crate::poly::{coeff_at, is_euclid_chain, lemma_trim_zeros, poly_derivative, poly_monic, poly_pow, poly_values, trim_zeros, Polynomial};
use crate::rosenhain::Rosenhain;
use crate::ssg_start::{no_primitive_fifth, quintic_rosenhain, quintic_roots, rosenhain_from_roots, rosenhain_of_roots};
use vstd::prelude::*;

verus! {

/// A number below `n` drawn by `rand::random_range(0..n)`.
#[verifier::external_body]
fn random_below(n: u32) -> (r: u32)
    requires
        n > 0,
    ensures
        r < n,
{
    rand::random_range(0..n)
}

/// The coefficients `c0, c1, c2, c3, 0, 1` of `x^5 + c3 x^3 + c2 x^2 + c1 x + c0`.
pub open spec fn quintic_values(c: Seq<int>) -> Seq<int> {
    seq![c[0], c[1], c[2], c[3], 0, 1]
}

/// The entries `(a, b, c, d)` of the Cartier–Manin matrix of `y^2 = f(x)`:
/// the coefficients of `x^(p-1)`, `x^(2p-1)`, `x^(p-2)` and `x^(2p-2)` in
/// `f^((p-1)/2)`.
pub open spec fn cartier_manin(f: Seq<int>, p: int) -> (int, int, int, int) {
    let g = poly_pow(f, ((p - 1) / 2) as nat, p);
    (coeff_at(g, p - 1), coeff_at(g, 2 * p - 1), coeff_at(g, p - 2), coeff_at(g, 2 * p - 2))
}

/// The Cartier–Manin matrix of `y^2 = f(x)` is nonzero (the curve is not
/// superspecial) and nilpotent: its determinant and trace vanish modulo `p`
/// (the curve is supersingular).
pub open spec fn cartier_manin_ok(f: Seq<int>, p: int) -> bool {
    let (a, b, c, d) = cartier_manin(f, p);
    &&& !(a == 0 && b == 0 && c == 0 && d == 0)
    &&& ((a * d) % p - (b * c) % p) % p == 0
    &&& (a + d) % p == 0
}

/// The quintic with the coefficients `c` is a candidate: along the Euclid
/// chain `chain` of it and its derivative, their greatest common divisor is
/// one (no repeated root), and its Cartier–Manin matrix is nonzero and
/// nilpotent.
pub open spec fn ssg_candidate(c: Seq<int>, chain: Seq<Seq<int>>, p: int) -> bool {
    let f = quintic_values(c);
    &&& is_euclid_chain(f, poly_derivative(f, p), chain, p)
    &&& poly_monic(chain[chain.len() - 2], p).len() == 1
    &&& cartier_manin_ok(f, p)
}

/// The values `c0, c1, c2, c3` of four coefficients.
pub open spec fn coeff_values<const P: u32>(c: [Fp<P>; 4]) -> Seq<int> {
    seq![c[0]@, c[1]@, c[2]@, c[3]@]
}

/// Whether the quintic `x^5 + c3 x^3 + c2 x^2 + c1 x + c0` has no repeated
/// root and a nonzero, nilpotent Cartier–Manin matrix.
pub fn ssg_candidate_quintic<const P: u32>(coeffs: [Fp<P>; 4]) -> (r: bool)
    requires
        is_prime(P as int),
        P > 5,
        P <= 0x8000_0000,
        5 * (P as int) + 2 <= usize::MAX,
    ensures
        exists|chain: Seq<Seq<int>>|
            is_euclid_chain(
                quintic_values(coeff_values(coeffs)),
                poly_derivative(quintic_values(coeff_values(coeffs)), P as int),
                chain,
                P as int,
            ) && (r == #[trigger] ssg_candidate(coeff_values(coeffs), chain, P as int)),
{
    let ghost p = P as int;
    let ghost c = coeff_values(coeffs);
    let zero = Fp::<P>::zero();
    let one = Fp::<P>::one();
    let v = vec![coeffs[0], coeffs[1], coeffs[2], coeffs[3], zero, one];
    let f = Polynomial::new(v);
    proof {
        assert(poly_values(v@) =~= quintic_values(c));
        assert(trim_zeros(quintic_values(c)) == quintic_values(c));
        lemma_trim_zeros(quintic_values(c));
    }
    let df = f.derivative();
    proof {
        lemma_trim_zeros(f.values());
        let s = f.values();
        if s.len() > 1 {
            lemma_trim_zeros(Seq::new((s.len() - 1) as nat, |i: int| (s[i + 1] * ((((i + 1) as u32) as int) % p)) % p));
        }
    }
    let g = Polynomial::gcd(&f, &df);
    let ghost chain = choose|chain: Seq<Seq<int>>|
        #[trigger] is_euclid_chain(f.values(), df.values(), chain, p) && g.values() == poly_monic(chain[chain.len() - 2], p);
    let square_free = g.degree() == 0 && !g.is_zero();
    let exp = ((P - 1) / 2) as u128;
    proof {
        assert(f.coeffs.len() == 6) by {
            assert(f.values().len() == 6);
        }
    }
    let h = f.pow(exp);
    let pu = P as usize;
    let a = h.coeff(pu - 1);
    let b = h.coeff(2 * pu - 1);
    let cc = h.coeff(pu - 2);
    let d = h.coeff(2 * pu - 2);
    let nonzero = !(a.is_zero() && b.is_zero() && cc.is_zero() && d.is_zero());
    let nilpotent = a.mul(d).sub(b.mul(cc)).is_zero() && a.add(d).is_zero();
    let r = square_free && nonzero && nilpotent;
    proof {
        assert(ssg_candidate(c, chain, p) == r);
    }
    r
}

/// The coefficient `x` of `Fp` as an element of `Fp4`.
pub open spec fn lift4(x: int) -> F4 {
    ((x, 0int), (0int, 0int))
}

/// The value at `x` of the polynomial with the coefficients `cs` from the
/// `k`-th on, by Horner's rule: `cs[k] + x (cs[k+1] + x (...))`.
pub open spec fn horner4(cs: Seq<int>, x: F4, k: int, d: int, e: (int, int), p: int) -> F4
    decreases cs.len() - k,
{
    if k < 0 || k >= cs.len() {
        f4_zero()
    } else {
        f4_add(f4_mul(horner4(cs, x, k + 1, d, e, p), x, d, e, p), lift4(cs[k]), p)
    }
}

/// The value at `x` of the polynomial with the coefficients `c` of `Fp`.
fn eval_at<const P: u32, const D1: u32, const D2C0: u32, const D2C1: u32>(
    c: &Vec<Fp<P>>,
    x: Fp4<P, D1, D2C0, D2C1>,
) -> (r: Fp4<P, D1, D2C0, D2C1>)
    requires
        f4_field(P, D1, D2C0, D2C1),
    ensures
        r@ == horner4(poly_values(c@), x@, 0, dmod(D1, P), d2_of(D2C0, D2C1, P), P as int),
{
    let ghost cs = poly_values(c@);
    let mut acc = Fp4::<P, D1, D2C0, D2C1>::zero();
    let mut i: usize = c.len();
    while i > 0
        invariant
            i <= c.len(),
            f4_field(P, D1, D2C0, D2C1),
            cs == poly_values(c@),
            acc@ == horner4(cs, x@, i as int, dmod(D1, P), d2_of(D2C0, D2C1, P), P as int),
        decreases i,
    {
        i = i - 1;
        let ci = Fp4::<P, D1, D2C0, D2C1>::new(Fp2::new(c[i], Fp::zero()), Fp2::zero());
        acc = acc.mul(x).add(ci);
    }
    acc
}

/// The distinct roots in `Fp4` of the polynomial with the coefficients `c` of
/// `Fp`, found by trying every element `a + b v + (c + d v) y` in turn; at most
/// `limit` of them.
pub fn roots_in_fp4<const P: u32, const D1: u32, const D2C0: u32, const D2C1: u32>(
    c: &Vec<Fp<P>>,
    limit: usize,
) -> (r: Vec<Fp4<P, D1, D2C0, D2C1>>)
    requires
        f4_field(P, D1, D2C0, D2C1),
    ensures
        r.len() <= limit,
        forall|i: int|
            0 <= i < r.len() ==> horner4(poly_values(c@), #[trigger] r@[i]@, 0, dmod(D1, P), d2_of(D2C0, D2C1, P), P as int)
                == f4_zero(),
        forall|i: int, j: int| 0 <= i < j < r.len() ==> #[trigger] r@[i]@ != #[trigger] r@[j]@,
{
    let mut roots: Vec<Fp4<P, D1, D2C0, D2C1>> = Vec::new();
    let mut a: u32 = 0;
    while a < P
        invariant
            f4_field(P, D1, D2C0, D2C1),
            roots.len() <= limit,
            forall|i: int|
                0 <= i < roots.len() ==> horner4(poly_values(c@), #[trigger] roots@[i]@, 0, dmod(D1, P), d2_of(D2C0, D2C1, P), P as int)
                    == f4_zero(),
            forall|i: int, j: int| 0 <= i < j < roots.len() ==> #[trigger] roots@[i]@ != #[trigger] roots@[j]@,
        decreases P - a,
    {
        let mut b: u32 = 0;
        while b < P
            invariant
                f4_field(P, D1, D2C0, D2C1),
                a < P,
                roots.len() <= limit,
                forall|i: int|
                    0 <= i < roots.len() ==> horner4(poly_values(c@), #[trigger] roots@[i]@, 0, dmod(D1, P), d2_of(D2C0, D2C1, P), P as int)
                        == f4_zero(),
                forall|i: int, j: int| 0 <= i < j < roots.len() ==> #[trigger] roots@[i]@ != #[trigger] roots@[j]@,
            decreases P - b,
        {
            let mut cc: u32 = 0;
            while cc < P
                invariant
                    f4_field(P, D1, D2C0, D2C1),
                    a < P,
                    b < P,
                    roots.len() <= limit,
                    forall|i: int|
                        0 <= i < roots.len() ==> horner4(poly_values(c@), #[trigger] roots@[i]@, 0, dmod(D1, P), d2_of(D2C0, D2C1, P), P as int)
                            == f4_zero(),
                    forall|i: int, j: int| 0 <= i < j < roots.len() ==> #[trigger] roots@[i]@ != #[trigger] roots@[j]@,
                decreases P - cc,
            {
                let mut dd: u32 = 0;
                while dd < P
                    invariant
                        f4_field(P, D1, D2C0, D2C1),
                        a < P,
                        b < P,
                        cc < P,
                        roots.len() <= limit,
                        forall|i: int|
                            0 <= i < roots.len() ==> horner4(poly_values(c@), #[trigger] roots@[i]@, 0, dmod(D1, P), d2_of(D2C0, D2C1, P), P as int)
                                == f4_zero(),
                        forall|i: int, j: int| 0 <= i < j < roots.len() ==> #[trigger] roots@[i]@ != #[trigger] roots@[j]@,
                    decreases P - dd,
                {
                    let x = Fp4::<P, D1, D2C0, D2C1>::new(Fp2::new(Fp::new(a), Fp::new(b)), Fp2::new(Fp::new(cc), Fp::new(dd)));
                    if roots.len() < limit && eval_at(c, x).is_zero() && !contains_element(&roots, &x) {
                        let ghost old_roots = roots@;
                        roots.push(x);
                        proof {
                            assert forall|i: int, j: int| 0 <= i < j < roots.len() implies #[trigger] roots@[i]@ != #[trigger] roots@[j]@ by {
                                if j == old_roots.len() {
                                    assert(roots@[i] == old_roots[i]);
                                } else {
                                    assert(roots@[i] == old_roots[i] && roots@[j] == old_roots[j]);
                                }
                            }
                            assert forall|i: int| 0 <= i < roots.len() implies horner4(poly_values(c@), #[trigger] roots@[i]@, 0, dmod(D1, P), d2_of(D2C0, D2C1, P), P as int)
                                == f4_zero() by {
                                if i < old_roots.len() {
                                    assert(roots@[i] == old_roots[i]);
                                }
                            }
                        }
                    }
                    dd = dd + 1;
                }
                cc = cc + 1;
            }
            b = b + 1;
        }
        a = a + 1;
    }
    roots
}

/// Whether `x` occurs in `v`.
fn contains_element<const P: u32, const D1: u32, const D2C0: u32, const D2C1: u32>(
    v: &Vec<Fp4<P, D1, D2C0, D2C1>>,
    x: &Fp4<P, D1, D2C0, D2C1>,
) -> (r: bool)
    ensures
        r == exists|i: int| 0 <= i < v.len() && #[trigger] v@[i]@ == x@,
{
    let mut i: usize = 0;
    while i < v.len()
        invariant
            i <= v.len(),
            forall|k: int| 0 <= k < i ==> #[trigger] v@[k]@ != x@,
        decreases v.len() - i,
    {
        if v[i].same_as(x) {
            return true;
        }
        i = i + 1;
    }
    false
}

/// A Rosenhain form `ram` drawn from the candidate quintic with the
/// coefficients `c` (with the Euclid chain `chain`) and five distinct roots
/// `rs` of it in `Fp4`.
pub open spec fn drawn_from_quintic(
    c: Seq<int>,
    chain: Seq<Seq<int>>,
    rs: Seq<F4>,
    ram: (F4, F4, F4),
    d: int,
    e: (int, int),
    p: int,
) -> bool {
    &&& c.len() == 4
    &&& ssg_candidate(c, chain, p)
    &&& rs.len() == 5
    &&& forall|i: int| 0 <= i < 5 ==> horner4(quintic_values(c), #[trigger] rs[i], 0, d, e, p) == f4_zero()
    &&& forall|i: int, j: int| 0 <= i < j < 5 ==> #[trigger] rs[i] != #[trigger] rs[j]
    &&& ram == rosenhain_of_roots(rs, d, e, p)
}

/// Draw up to `attempts` random quintics `x^5 + c3 x^3 + c2 x^2 + c1 x + c0`
/// over `Fp` until one is a candidate, and give the Rosenhain form of its
/// roots in `Fp4`; `None` where no candidate turns up, or the first candidate
/// has fewer than five roots in `Fp4`.
pub fn random_ssg_rosenhain<const P: u32, const D1: u32, const D2C0: u32, const D2C1: u32>(attempts: usize) -> (r: Option<
    Rosenhain<Fp4<P, D1, D2C0, D2C1>>,
>)
    requires
        f4_field(P, D1, D2C0, D2C1),
        P > 5,
        5 * (P as int) + 2 <= usize::MAX,
    ensures
        r matches Some(ram) ==> exists|c: Seq<int>, chain: Seq<Seq<int>>, rs: Seq<F4>|
            #[trigger] drawn_from_quintic(
                c,
                chain,
                rs,
                (ram.la@, ram.mu@, ram.nu@),
                dmod(D1, P),
                d2_of(D2C0, D2C1, P),
                P as int,
            ),
{
    let ghost (d, e, p) = (dmod(D1, P), d2_of(D2C0, D2C1, P), P as int);
    let mut k: usize = 0;
    while k < attempts
        invariant
            f4_field(P, D1, D2C0, D2C1),
            P > 5,
            5 * (P as int) + 2 <= usize::MAX,
            d == dmod(D1, P),
            e == d2_of(D2C0, D2C1, P),
            p == P as int,
        decreases attempts - k,
    {
        let coeffs = [
            Fp::<P>::new(random_below(P)),
            Fp::<P>::new(random_below(P)),
            Fp::<P>::new(random_below(P)),
            Fp::<P>::new(random_below(P)),
        ];
        if ssg_candidate_quintic(coeffs) {
            let ghost chain = choose|chain: Seq<Seq<int>>|
                is_euclid_chain(
                    quintic_values(coeff_values(coeffs)),
                    poly_derivative(quintic_values(coeff_values(coeffs)), p),
                    chain,
                    p,
                ) && (true == #[trigger] ssg_candidate(coeff_values(coeffs), chain, p));
            let v = vec![coeffs[0], coeffs[1], coeffs[2], coeffs[3], Fp::<P>::zero(), Fp::<P>::one()];
            proof {
                assert(poly_values(v@) =~= quintic_values(coeff_values(coeffs)));
            }
            let roots = roots_in_fp4::<P, D1, D2C0, D2C1>(&v, 5);
            if roots.len() < 5 {
                return None;
            }
            let rs = [roots[0], roots[1], roots[2], roots[3], roots[4]];
            let ghost rv = seq![rs[0]@, rs[1]@, rs[2]@, rs[3]@, rs[4]@];
            proof {
                assert forall|i: int| 0 <= i < 5 implies rv[i] == roots@[i]@ by {}
            }
            match rosenhain_from_roots(&rs) {
                Some(ram) => {
                    proof {
                        assert(drawn_from_quintic(coeff_values(coeffs), chain, rv, (ram.la@, ram.mu@, ram.nu@), d, e, p)) by {
                            assert forall|i: int| 0 <= i < 5 implies horner4(quintic_values(coeff_values(coeffs)), #[trigger] rv[i], 0, d, e, p)
                                == f4_zero() by {
                                assert(rv[i] == roots@[i]@);
                            }
                            assert forall|i: int, j: int| 0 <= i < j < 5 implies #[trigger] rv[i] != #[trigger] rv[j] by {
                                assert(rv[i] == roots@[i]@ && rv[j] == roots@[j]@);
                            }
                        }
                    }
                    return Some(ram);
                },
                None => return None,
            }
        }
        k = k + 1;
    }
    None
}

/// A Rosenhain form of a supersingular, non-superspecial genus-2 curve to
/// start from: that of `y^2 = x^5 - 1` when `p = 2, 3 (mod 5)`, and otherwise
/// one drawn by `random_ssg_rosenhain` in up to a million attempts.
pub fn generate_ssg_rosenhain<const P: u32, const D1: u32, const D2C0: u32, const D2C1: u32>() -> (r: Option<
    Rosenhain<Fp4<P, D1, D2C0, D2C1>>,
>)
    requires
        f4_field(P, D1, D2C0, D2C1),
        P > 5,
        5 * (P as int) + 2 <= usize::MAX,
    ensures
        r matches Some(ram) ==> ((P % 5 == 2 || P % 5 == 3) && exists|z: F4|
            f4_pow(z, 5, dmod(D1, P), d2_of(D2C0, D2C1, P), P as int) == f4_one() && z != f4_one() && (ram.la@, ram.mu@, ram.nu@)
                == #[trigger] rosenhain_of_roots(quintic_roots(z, dmod(D1, P), d2_of(D2C0, D2C1, P), P as int), dmod(D1, P), d2_of(D2C0, D2C1, P), P as int))
            || (!(P % 5 == 2 || P % 5 == 3) && exists|c: Seq<int>, chain: Seq<Seq<int>>, rs: Seq<F4>|
            #[trigger] drawn_from_quintic(
                c,
                chain,
                rs,
                (ram.la@, ram.mu@, ram.nu@),
                dmod(D1, P),
                d2_of(D2C0, D2C1, P),
                P as int,
            )),
        (P % 5 == 2 || P % 5 == 3) && r is None ==> no_primitive_fifth(dmod(D1, P), d2_of(D2C0, D2C1, P), P as int),
{
    if P % 5 == 2 || P % 5 == 3 {
        quintic_rosenhain::<P, D1, D2C0, D2C1>()
    } else {
        random_ssg_rosenhain::<P, D1, D2C0, D2C1>(1_000_000)
    }
}

} // verus!
