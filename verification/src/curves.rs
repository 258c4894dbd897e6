//! Elliptic curves in Legendre form over `Fp2` and pairs of them.
use crate::fq::{
    dmod, f2_add, f2_inverse, f2_mul, f2_mul_op, f2_norm, f2_pow, f2_sub, lemma_f2_monoid,
    lemma_f2_mul_comm, valid_modulus, Fp, Fp2,
};
use crate::modular::{binom, is_prime, lemma_euclid, lemma_mod_range, lemma_mul_cong, lemma_mul_mod_both};
use crate::monoid::mpow;
pub use crate::rosenhain::{IgusaInvariants, Rosenhain};
use vstd::arithmetic::div_mod::*;
use vstd::prelude::*;

verus! {

/// `C(m, k)^2` reduced modulo `p`.
pub open spec fn hasse_coeff(m: nat, k: nat, p: int) -> int {
    ((binom(m, k) * binom(m, k)) as int) % p
}

/// The first `j` terms of the Hasse polynomial `sum_k C(m, k)^2 la^k` in `Fp2`.
pub open spec fn hasse_sum(la: (int, int), m: nat, j: nat, d: int, p: int) -> (int, int)
    decreases j,
{
    if j == 0 {
        (0, 0)
    } else {
        let k = (j - 1) as nat;
        f2_add(hasse_sum(la, m, k, d, p), f2_mul((hasse_coeff(m, k, p), 0), f2_pow(la, k, d, p), d, p), p)
    }
}

/// The Legendre curve with parameter `la` is supersingular: the Hasse
/// polynomial of degree `m = (p - 1) / 2` vanishes at `la`.
pub open spec fn is_supersingular_at(la: (int, int), d: int, p: int) -> bool {
    let m = ((p - 1) / 2) as nat;
    hasse_sum(la, m, m + 1, d, p) == (0int, 0int)
}

/// `la^2 - la + 1`.
pub open spec fn j_core(la: (int, int), d: int, p: int) -> (int, int) {
    f2_add(f2_sub(f2_mul(la, la, d, p), la, p), (1, 0), p)
}

/// The numerator `256 (la^2 - la + 1)^3` of the j-invariant.
pub open spec fn j_numerator(la: (int, int), d: int, p: int) -> (int, int) {
    f2_mul((256int % p, 0int), f2_pow(j_core(la, d, p), 3, d, p), d, p)
}

/// The denominator `la^2 (la - 1)^2` of the j-invariant, multiplied from the left.
pub open spec fn j_denominator(la: (int, int), d: int, p: int) -> (int, int) {
    let lm1 = f2_sub(la, (1, 0), p);
    f2_mul(f2_mul(f2_mul(la, la, d, p), lm1, d, p), lm1, d, p)
}

/// The j-invariant `256 (la^2 - la + 1)^3 / (la^2 (la - 1)^2)`.
pub open spec fn j_invariant_of(la: (int, int), d: int, p: int) -> (int, int) {
    f2_mul(j_numerator(la, d, p), f2_inverse(j_denominator(la, d, p), d, p), d, p)
}

/// The denominator of the j-invariant can be inverted.
pub open spec fn j_defined(la: (int, int), d: int, p: int) -> bool {
    j_denominator(la, d, p) != (0int, 0int) && f2_norm(j_denominator(la, d, p), d, p) != 0
}

/// `a <= b` in the order of coordinates `(c0, c1)`, compared lexicographically.
pub open spec fn f2_le(a: (int, int), b: (int, int)) -> bool {
    a.0 < b.0 || (a.0 == b.0 && a.1 <= b.1)
}

/// The two values, smaller first in the order `f2_le`.
pub open spec fn sorted_pair(a: (int, int), b: (int, int)) -> ((int, int), (int, int)) {
    if f2_le(a, b) {
        (a, b)
    } else {
        (b, a)
    }
}

/// The sorted pair is ordered, holds the two values, and does not depend on
/// their order: the j-invariants of a product of two Legendre curves do not
/// depend on which curve comes first.
pub proof fn lemma_sorted_pair(a: (int, int), b: (int, int))
    ensures
        f2_le(sorted_pair(a, b).0, sorted_pair(a, b).1),
        sorted_pair(a, b) == (a, b) || sorted_pair(a, b) == (b, a),
        sorted_pair(a, b) == sorted_pair(b, a),
{
}

/// `(c0, c1)` is neither 0 nor 1 and gives a supersingular Legendre curve.
pub open spec fn ssg_candidate(c0: int, c1: int, d: int, p: int) -> bool {
    &&& (c0, c1) != (0int, 0int)
    &&& (c0, c1) != (1int, 0int)
    &&& is_supersingular_at((c0, c1), d, p)
}

/// `c` is the first candidate with coordinates below `p`, in the order of
/// `(c0, c1)`.
pub open spec fn ssg_first_candidate(c: (int, int), d: int, p: int) -> bool {
    &&& 0 <= c.0 < p
    &&& 0 <= c.1 < p
    &&& ssg_candidate(c.0, c.1, d, p)
    &&& forall|c0: int, c1: int|
        0 <= c0 < p && 0 <= c1 < p && (c0 < c.0 || (c0 == c.0 && c1 < c.1)) ==> !#[trigger] ssg_candidate(c0, c1, d, p)
}

/// The Legendre parameter of the supersingular curve that
/// `generate_ssg_legendre` finds: -1 when `p % 4 == 3`, else the first candidate.
pub open spec fn ssg_lambda(p: int, d: int) -> (int, int) {
    if p % 4 == 3 {
        (p - 1, 0int)
    } else {
        choose|c: (int, int)| ssg_first_candidate(c, d, p)
    }
}

/// At most one candidate comes first.
pub proof fn lemma_first_candidate_unique(c: (int, int), c2: (int, int), d: int, p: int)
    requires
        ssg_first_candidate(c, d, p),
        ssg_first_candidate(c2, d, p),
    ensures
        c == c2,
{
    if c.0 < c2.0 || (c.0 == c2.0 && c.1 < c2.1) {
        assert(!ssg_candidate(c.0, c.1, d, p));
    } else if c2.0 < c.0 || (c2.0 == c.0 && c2.1 < c.1) {
        assert(!ssg_candidate(c2.0, c2.1, d, p));
    }
}

/// A Legendre form of an elliptic curve: y^2 = x (x - 1) (x - λ)
#[derive(Copy, Clone, Debug, PartialEq, Eq)]
pub struct Legendre<const P: u32, const D: u32> {
    pub la: Fp2<P, D>,
}

/// `(c0 * c0 mod p, 0)`: the square of a base-field element, embedded.
proof fn lemma_square_coeff(b: int, c: int, p: int)
    requires
        p > 0,
        b == c % p,
    ensures
        (b * b) % p == (c * c) % p,
{
    lemma_mod_range(c, p);
    lemma_mul_cong(b, b, c, c, p);
}

/// With `p` prime and `0 < k + 1 < p`, if `x (k + 1) == y (k + 1)` modulo `p` then `x == y`.
proof fn lemma_cancel(x: int, y: int, k1: int, p: int)
    requires
        is_prime(p),
        0 < k1 < p,
        0 <= x < p,
        0 <= y < p,
        (x * k1) % p == (y * k1) % p,
    ensures
        x == y,
{
    assert((x - y) * k1 == x * k1 - y * k1) by (nonlinear_arith);
    lemma_mod_eq_diff(x * k1, y * k1, p);
    lemma_euclid(x - y, k1, p);
    lemma_small_mod(k1 as nat, p as nat);
    if x != y {
        if x > y {
            lemma_small_mod((x - y) as nat, p as nat);
        } else {
            lemma_mod_range(x - y, p);
            assert((x - y) % p == x - y + p) by {
                vstd::arithmetic::div_mod::lemma_fundamental_div_mod(x - y, p);
                lemma_small_mod((x - y + p) as nat, p as nat);
                vstd::arithmetic::div_mod::lemma_mod_add_multiples_vanish(x - y, p);
            }
        }
    }
}

/// `(x - y) mod p == 0` exactly when `x mod p == y mod p`.
proof fn lemma_mod_eq_diff(a: int, b: int, p: int)
    requires
        p > 0,
        a % p == b % p,
    ensures
        (a - b) % p == 0,
{
    crate::modular::lemma_mod_eq_iff_diff(a, b, p);
}

/// `C(m, k) (m - k) == C(m, k + 1) (k + 1)`.
proof fn lemma_binom_step(m: nat, k: nat)
    requires
        k < m,
    ensures
        binom(m, k) * (m - k) == binom(m, k + 1) * (k + 1),
{
    crate::modular::lemma_binom_absorption(m, k + 1);
    let lhs = binom(m, k) * (m - k);
    let c1 = binom(m, k + 1);
    let b = binom((m - 1) as nat, k);
    assert((k + 1) * c1 == m * b);
    if k == 0 {
        assert(binom(m, 0) == 1);
        assert(b == 1);
        assert(lhs == m * b) by (nonlinear_arith)
            requires
                lhs == binom(m, k) * (m - k),
                binom(m, k) == 1,
                b == 1,
                k == 0,
        ;
    } else {
        crate::modular::lemma_binom_absorption(m, k);
        let a = binom((m - 1) as nat, (k - 1) as nat);
        assert(binom(m, k) == a + b);
        assert(k * binom(m, k) == m * a);
        assert(lhs == m * b) by (nonlinear_arith)
            requires
                lhs == binom(m, k) * (m - k),
                binom(m, k) == a + b,
                k * binom(m, k) == m * a,
        ;
    }
    assert(binom(m, k) * (m - k) == binom(m, k + 1) * (k + 1)) by (nonlinear_arith)
        requires
            lhs == binom(m, k) * (m - k),
            lhs == m * b,
            (k + 1) * c1 == m * b,
            c1 == binom(m, k + 1),
    ;
}

impl<const P: u32, const D: u32> Legendre<P, D> {
    pub fn new(la: Fp2<P, D>) -> (r: Self)
        ensures
            r.la == la,
    {
        Self { la }
    }

    /// The j-invariant `256 (λ^2 - λ + 1)^3 / (λ^2 (λ - 1)^2)`; it is defined
    /// only where the denominator can be inverted.
    pub fn j_invariant(&self) -> (r: Fp2<P, D>)
        requires
            j_defined(self.la@, dmod(D, P), P as int),
        ensures
            r@ == j_invariant_of(self.la@, dmod(D, P), P as int),
    {
        let _ = self.la.c0.value();
        let la = self.la;
        let one = Fp2::<P, D>::one();
        let c = Fp2::<P, D>::new(Fp::<P>::new(256), Fp::<P>::zero());
        let num = c.mul(la.mul(la).sub(la).add(one).pow(3));
        let den = la.mul(la).mul(la.sub(one)).mul(la.sub(one));
        num.div(den)
    }

    /// Whether the curve is supersingular: the Hasse polynomial
    /// `sum_{k <= m} C(m, k)^2 λ^k` with `m = (P - 1) / 2` vanishes at `λ`.
    /// The binomial coefficients are updated by division in `Fp`, so `P` is
    /// taken prime.
    pub fn is_supersingular(&self) -> (r: bool)
        requires
            is_prime(P as int),
        ensures
            r == is_supersingular_at(self.la@, dmod(D, P), P as int),
    {
        let _ = self.la.c0.value();
        let ghost p = P as int;
        let ghost d = dmod(D, P);
        let ghost la = self.la@;
        let m: u32 = (P - 1) / 2;
        let mut binom_k = Fp::<P>::one();
        let mut la_pow = Fp2::<P, D>::one();
        let mut sum = Fp2::<P, D>::zero();
        let mut k: u32 = 0;
        proof {
            lemma_small_mod(1, P as nat);
            assert(binom(m as nat, 0) == 1);
        }
        while k <= m
            invariant
                valid_modulus(p),
                is_prime(p),
                p == P as int,
                d == dmod(D, P),
                la == self.la@,
                m == (P - 1) / 2,
                k <= m + 1,
                k <= m ==> binom_k@ == (binom(m as nat, k as nat) as int) % p,
                la_pow@ == f2_pow(la, k as nat, d, p),
                sum@ == hasse_sum(la, m as nat, k as nat, d, p),
            decreases m + 1 - k,
        {
            let binom_square = Fp2::<P, D>::new(binom_k.mul(binom_k), Fp::<P>::zero());
            proof {
                lemma_square_coeff(binom_k@, binom(m as nat, k as nat) as int, p);
            }
            sum = sum.add(binom_square.mul(la_pow));
            let ghost b_old = binom_k@;
            proof {
                assert(k + 1 < P) by {
                    if P >= 3 {
                        assert(m + 1 <= P - 1);
                    } else {
                        assert(P == 2 && m == 0);
                    }
                }
                lemma_small_mod((k + 1) as nat, P as nat);
                lemma_small_mod((m - k) as nat, P as nat);
            }
            let quot = Fp::<P>::new(m - k).div(Fp::<P>::new(k + 1));
            binom_k = binom_k.mul(quot);
            proof {
                let kk = k as nat;
                let mm = m as nat;
                let k1 = (k + 1) as int;
                let qv = quot@;
                let cb = binom(mm, kk) as int;
                assert((qv * k1) % p == (m - k) as int);
                if k < m {
                    lemma_binom_step(mm, kk);
                    let cn = binom(mm, kk + 1) as int;
                    assert(cb * (m - k) == cn * k1);
                    // (binom_k * (k + 1)) % p == (cn * (k + 1)) % p
                    lemma_mul_mod_both(b_old * qv, k1, p);
                    assert((b_old * qv) * k1 == b_old * (qv * k1)) by (nonlinear_arith);
                    lemma_mul_mod_both(b_old, qv * k1, p);
                    lemma_mod_range(cb, p);
                    lemma_mul_cong(b_old, (qv * k1) % p, cb, (m - k) as int, p);
                    lemma_mod_range(cn, p);
                    lemma_mul_mod_both(cn, k1, p);
                    lemma_mod_range(b_old * qv, p);
                    lemma_cancel(binom_k@, cn % p, k1, p);
                }
            }
            la_pow = la_pow.mul(self.la);
            proof {
                lemma_f2_monoid(d, p);
                lemma_f2_mul_comm(f2_pow(la, k as nat, d, p), la, d, p);
            }
            k = k + 1;
        }
        sum.is_zero()
    }
}

impl<const P: u32, const D: u32> Legendre<P, D> {
    /// Generate a supersingular elliptic curve over Fp^2: `λ = -1` when
    /// `P % 4 == 3`, and otherwise the first `λ = c0 + c1 x` (by `c0`, then
    /// `c1`) other than 0 and 1 whose curve is supersingular. Callers
    /// ensure `P > 5` and that a candidate exists.
    pub fn generate_ssg_legendre() -> (r: Legendre<P, D>)
        requires
            is_prime(P as int),
            valid_modulus(P as int),
            P > 5,
            P % 4 == 3 || exists|c0: int, c1: int|
                0 <= c0 < P && 0 <= c1 < P && #[trigger] ssg_candidate(c0, c1, dmod(D, P), P as int),
        ensures
            P % 4 == 3 ==> r.la@ == ((P - 1) as int, 0int),
            P % 4 != 3 ==> ssg_candidate(r.la@.0, r.la@.1, dmod(D, P), P as int),
            P % 4 != 3 ==> forall|c0: int, c1: int|
                0 <= c0 < P && 0 <= c1 < P && (c0 < r.la@.0 || (c0 == r.la@.0 && c1 < r.la@.1))
                    ==> !#[trigger] ssg_candidate(c0, c1, dmod(D, P), P as int),
            r.la@ == ssg_lambda(P as int, dmod(D, P)),
    {
        let ghost d = dmod(D, P);
        let ghost p = P as int;
        if P % 4 == 3 {
            proof {
                lemma_small_mod((P - 1) as nat, P as nat);
            }
            let la = Fp2::<P, D>::new(Fp::<P>::new(P - 1), Fp::<P>::zero());
            return Legendre::<P, D>::new(la);
        }
        let mut c0: u32 = 0;
        while c0 < P
            invariant
                is_prime(p),
                p == P as int,
                d == dmod(D, P),
                valid_modulus(p),
                P % 4 != 3,
                c0 <= P,
                forall|a: int, b: int| 0 <= a < c0 && 0 <= b < P ==> !#[trigger] ssg_candidate(a, b, d, p),
            decreases P - c0,
        {
            let mut c1: u32 = 0;
            while c1 < P
                invariant
                    is_prime(p),
                    p == P as int,
                    d == dmod(D, P),
                    valid_modulus(p),
                    P % 4 != 3,
                    c0 < P,
                    c1 <= P,
                    forall|a: int, b: int| 0 <= a < c0 && 0 <= b < P ==> !#[trigger] ssg_candidate(a, b, d, p),
                    forall|b: int| 0 <= b < c1 ==> !#[trigger] ssg_candidate(c0 as int, b, d, p),
                decreases P - c1,
            {
                proof {
                    lemma_small_mod(c0 as nat, P as nat);
                    lemma_small_mod(c1 as nat, P as nat);
                }
                let la = Fp2::<P, D>::new(Fp::<P>::new(c0), Fp::<P>::new(c1));
                let one = Fp2::<P, D>::one();
                let is_one = la.c0.value() == one.c0.value() && la.c1.value() == one.c1.value();
                if la.is_zero() || is_one {
                    c1 = c1 + 1;
                    continue;
                }
                let e = Legendre::<P, D>::new(la);
                if e.is_supersingular() {
                    proof {
                        assert(ssg_first_candidate(la@, d, p));
                        let c = choose|c: (int, int)| ssg_first_candidate(c, d, p);
                        lemma_first_candidate_unique(c, la@, d, p);
                    }
                    return e;
                }
                c1 = c1 + 1;
            }
            c0 = c0 + 1;
        }
        proof {
            let (a, b) = choose|a: int, b: int| 0 <= a < P && 0 <= b < P && #[trigger] ssg_candidate(a, b, d, p);
            assert(!ssg_candidate(a, b, d, p));
        }
        Legendre::<P, D>::new(Fp2::<P, D>::zero())
    }
}

/// Two legendre forms of elliptic curves.
#[derive(Copy, Clone, Debug, PartialEq, Eq)]
pub struct LegendreProduct<const P: u32, const D: u32> {
    pub e1: Legendre<P, D>,
    pub e2: Legendre<P, D>,
}

impl<const P: u32, const D: u32> LegendreProduct<P, D> {
    pub fn new(e1: Legendre<P, D>, e2: Legendre<P, D>) -> (r: Self)
        ensures
            r.e1 == e1,
            r.e2 == e2,
    {
        Self { e1, e2 }
    }

    /// The j-invariants of the two curves, smaller first (coordinates
    /// compared as `(c0, c1)`).
    pub fn j_invariants(&self) -> (r: (Fp2<P, D>, Fp2<P, D>))
        requires
            j_defined(self.e1.la@, dmod(D, P), P as int),
            j_defined(self.e2.la@, dmod(D, P), P as int),
        ensures
            (r.0@, r.1@) == sorted_pair(
                j_invariant_of(self.e1.la@, dmod(D, P), P as int),
                j_invariant_of(self.e2.la@, dmod(D, P), P as int),
            ),
    {
        let j1 = self.e1.j_invariant();
        let j2 = self.e2.j_invariant();
        let a0 = j1.c0.value();
        let a1 = j1.c1.value();
        let b0 = j2.c0.value();
        let b1 = j2.c1.value();
        if a0 < b0 || (a0 == b0 && a1 <= b1) {
            (j1, j2)
        } else {
            (j2, j1)
        }
    }
}

} // verus!
