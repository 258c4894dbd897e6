//! Genus-2 curves in Rosenhain form over `Fp4` and their Igusa invariants.
use crate::fp4::{
    f4_field_params, f4_reduced, lemma_f4_div_mul, lemma_f4_domain, lemma_f4_inverse_nonzero, lemma_f4_mul_assoc,
    lemma_f4_mul_comm, lemma_f4_mul_div, lemma_f4_mul_one, lemma_f4_mul_reduced, lemma_f4_mul_sub,
    lemma_f4_nonzero_invertible, lemma_f4_sub_cancel, lemma_f4_sub_eq_self, lemma_f4_sub_nonzero,
    lemma_f4_sub_reduced,
    d2_of, f4_add, f4_const, f4_views, f4_inverse, f4_invertible, f4_mul, f4_one, f4_pow, f4_sub, f4_zero, F4, Fp4,
};
use crate::fq::{dmod, valid_modulus};
use vstd::arithmetic::div_mod::lemma_small_mod;
use crate::modular::{is_prime, lemma_euclid, lemma_mod_range};
use crate::monoid::mpow;
use vstd::prelude::*;

verus! {

/// The fifteen ways to split the six points into three pairs.
pub const G2: [[usize; 6]; 15] = [
    [0, 1, 2, 3, 4, 5],
    [2, 0, 1, 3, 4, 5],
    [3, 0, 1, 2, 4, 5],
    [4, 0, 1, 2, 3, 5],
    [5, 0, 1, 2, 3, 4],
    [4, 1, 0, 2, 3, 5],
    [5, 1, 0, 2, 3, 4],
    [4, 2, 0, 1, 3, 5],
    [5, 2, 0, 1, 3, 4],
    [3, 0, 4, 1, 2, 5],
    [4, 0, 3, 1, 2, 5],
    [5, 0, 3, 1, 2, 4],
    [5, 1, 3, 0, 2, 4],
    [2, 3, 4, 0, 1, 5],
    [5, 0, 4, 1, 2, 3],
];

/// The ten ways to split the six points into two triples.
pub const G4: [[usize; 6]; 10] = [
    [0, 1, 2, 3, 4, 5],
    [3, 0, 1, 2, 4, 5],
    [4, 0, 1, 2, 3, 5],
    [5, 0, 1, 2, 3, 4],
    [2, 3, 0, 1, 4, 5],
    [4, 2, 0, 1, 3, 5],
    [5, 2, 0, 1, 3, 4],
    [3, 4, 0, 1, 2, 5],
    [5, 3, 0, 1, 2, 4],
    [4, 5, 0, 1, 2, 3],
];

/// The sixty orderings of the six points that the invariant `I6` sums over.
pub const G6: [[usize; 6]; 60] = [
    [0, 1, 2, 3, 4, 5],
    [1, 0, 2, 3, 4, 5],
    [2, 0, 1, 3, 4, 5],
    [3, 0, 1, 2, 4, 5],
    [4, 0, 1, 2, 3, 5],
    [5, 0, 1, 2, 3, 4],
    [0, 2, 1, 3, 4, 5],
    [1, 2, 0, 3, 4, 5],
    [2, 1, 0, 3, 4, 5],
    [3, 1, 0, 2, 4, 5],
    [4, 1, 0, 2, 3, 5],
    [5, 1, 0, 2, 3, 4],
    [0, 3, 1, 2, 4, 5],
    [1, 3, 0, 2, 4, 5],
    [2, 3, 0, 1, 4, 5],
    [3, 2, 0, 1, 4, 5],
    [4, 2, 0, 1, 3, 5],
    [5, 2, 0, 1, 3, 4],
    [0, 4, 1, 2, 3, 5],
    [1, 4, 0, 2, 3, 5],
    [2, 4, 0, 1, 3, 5],
    [3, 4, 0, 1, 2, 5],
    [4, 3, 0, 1, 2, 5],
    [5, 3, 0, 1, 2, 4],
    [0, 5, 1, 2, 3, 4],
    [1, 5, 0, 2, 3, 4],
    [2, 5, 0, 1, 3, 4],
    [3, 5, 0, 1, 2, 4],
    [4, 5, 0, 1, 2, 3],
    [5, 4, 0, 1, 2, 3],
    [0, 1, 3, 2, 4, 5],
    [1, 0, 3, 2, 4, 5],
    [2, 0, 3, 1, 4, 5],
    [3, 0, 2, 1, 4, 5],
    [4, 0, 2, 1, 3, 5],
    [5, 0, 2, 1, 3, 4],
    [0, 2, 3, 1, 4, 5],
    [1, 2, 3, 0, 4, 5],
    [2, 1, 3, 0, 4, 5],
    [0, 3, 2, 1, 4, 5],
    [1, 3, 2, 0, 4, 5],
    [2, 3, 1, 0, 4, 5],
    [0, 4, 2, 1, 3, 5],
    [1, 4, 2, 0, 3, 5],
    [2, 4, 1, 0, 3, 5],
    [0, 5, 2, 1, 3, 4],
    [1, 5, 2, 0, 3, 4],
    [2, 5, 1, 0, 3, 4],
    [0, 1, 4, 2, 3, 5],
    [1, 0, 4, 2, 3, 5],
    [2, 0, 4, 1, 3, 5],
    [3, 0, 4, 1, 2, 5],
    [0, 2, 4, 1, 3, 5],
    [1, 2, 4, 0, 3, 5],
    [2, 1, 4, 0, 3, 5],
    [3, 1, 4, 0, 2, 5],
    [0, 3, 4, 1, 2, 5],
    [1, 3, 4, 0, 2, 5],
    [2, 3, 4, 0, 1, 5],
    [3, 2, 4, 0, 1, 5],
];

/// Igusa invariants of a genus-2 curve.
#[derive(Debug, Clone, Copy, PartialEq, Eq, Hash)]
pub struct IgusaInvariants<T> {
    pub i1: T,
    pub i2: T,
    pub i3: T,
}

/// A Rosenhain form of a genus 2 curve: y^2 = x (x - 1) (x - λ) (x - μ) (x - ν)
#[derive(Copy, Clone, Debug, Eq, PartialEq)]
pub struct Rosenhain<T> {
    pub la: T,
    pub mu: T,
    pub nu: T,
}

impl<T> Rosenhain<T> {
    pub fn new(la: T, mu: T, nu: T) -> (r: Self)
        ensures
            r.la == la,
            r.mu == mu,
            r.nu == nu,
    {
        Self { la, mu, nu }
    }
}

/// `(la, mu, nu)` is a Rosenhain form of a genus-2 curve: none of them is 0 or
/// 1, and they are distinct.
pub open spec fn rosenhain_valid(la: F4, mu: F4, nu: F4) -> bool {
    &&& la != f4_zero() && mu != f4_zero() && nu != f4_zero()
    &&& la != f4_one() && mu != f4_one() && nu != f4_one()
    &&& la != mu && la != nu && mu != nu
}

// =============================================================================
// Igusa invariants: specification
// =============================================================================

/// `c` is none of `la`, `mu`, `nu`.
pub open spec fn ig_free(c: F4, la: F4, mu: F4, nu: F4) -> bool {
    c != la && c != mu && c != nu
}

/// The integer `k` among 2, 3, 4, 5 such that `k` (in `Fp4`) is the first of
/// them that is none of `la`, `mu`, `nu`; the point `k` is sent to infinity.
pub open spec fn ig_point(la: F4, mu: F4, nu: F4, p: int) -> int {
    if ig_free(f4_const(2, p), la, mu, nu) {
        2
    } else if ig_free(f4_const(3, p), la, mu, nu) {
        3
    } else if ig_free(f4_const(4, p), la, mu, nu) {
        4
    } else {
        5
    }
}

/// The image `x / (x - a)` of `x` under the Möbius map that sends `a` to infinity.
pub open spec fn ig_moebius(x: F4, a: F4, d: int, e: (int, int), p: int) -> F4 {
    f4_mul(x, f4_inverse(f4_sub(x, a, p), d, e, p), d, e, p)
}

/// The six branch points `0, ∞, 1, λ, μ, ν` moved by the Möbius map that sends
/// the point `ig_point` to infinity.
pub open spec fn ig_roots(la: F4, mu: F4, nu: F4, d: int, e: (int, int), p: int) -> Seq<F4> {
    let a = f4_const(ig_point(la, mu, nu, p), p);
    seq![
        f4_zero(),
        f4_one(),
        f4_inverse(f4_sub(f4_one(), a, p), d, e, p),
        ig_moebius(la, a, d, e, p),
        ig_moebius(mu, a, d, e, p),
        ig_moebius(nu, a, d, e, p),
    ]
}

/// `s[i] - s[j]`.
pub open spec fn ig_diff(s: Seq<F4>, i: usize, j: usize, p: int) -> F4 {
    f4_sub(s[i as int], s[j as int], p)
}

/// `(s0 - s1)(s2 - s3)(s4 - s5)` for the indices of the row `g`.
pub open spec fn ig_t2(s: Seq<F4>, g: [usize; 6], d: int, e: (int, int), p: int) -> F4 {
    let m = |x: F4, y: F4| f4_mul(x, y, d, e, p);
    m(m(ig_diff(s, g[0], g[1], p), ig_diff(s, g[2], g[3], p)), ig_diff(s, g[4], g[5], p))
}

/// `(s0 - s1)(s1 - s2)(s2 - s0)(s3 - s4)(s4 - s5)(s5 - s3)` for the indices of the row `g`.
pub open spec fn ig_t4(s: Seq<F4>, g: [usize; 6], d: int, e: (int, int), p: int) -> F4 {
    let m = |x: F4, y: F4| f4_mul(x, y, d, e, p);
    m(
        m(
            m(m(m(ig_diff(s, g[0], g[1], p), ig_diff(s, g[1], g[2], p)), ig_diff(s, g[2], g[0], p)),
                ig_diff(s, g[3], g[4], p)),
            ig_diff(s, g[4], g[5], p),
        ),
        ig_diff(s, g[5], g[3], p),
    )
}

/// `ig_t4` further multiplied by `(s0 - s3)(s1 - s4)(s2 - s5)`.
pub open spec fn ig_t6(s: Seq<F4>, g: [usize; 6], d: int, e: (int, int), p: int) -> F4 {
    let m = |x: F4, y: F4| f4_mul(x, y, d, e, p);
    m(m(m(ig_t4(s, g, d, e, p), ig_diff(s, g[0], g[3], p)), ig_diff(s, g[1], g[4], p)), ig_diff(s, g[2], g[5], p))
}

/// The terms of the sum `I2`, by row of `G2`.
pub open spec fn ig_terms2(s: Seq<F4>, d: int, e: (int, int), p: int) -> spec_fn(int) -> F4 {
    |i: int| ig_t2(s, G2[i], d, e, p)
}

/// The terms of the sum `I4`, by row of `G4`.
pub open spec fn ig_terms4(s: Seq<F4>, d: int, e: (int, int), p: int) -> spec_fn(int) -> F4 {
    |i: int| ig_t4(s, G4[i], d, e, p)
}

/// The terms of the sum `I6`, by row of `G6`.
pub open spec fn ig_terms6(s: Seq<F4>, d: int, e: (int, int), p: int) -> spec_fn(int) -> F4 {
    |i: int| ig_t6(s, G6[i], d, e, p)
}

/// `t(0)^2 + ... + t(n - 1)^2` in `Fp4`.
pub open spec fn f4_sum_sq(t: spec_fn(int) -> F4, n: nat, d: int, e: (int, int), p: int) -> F4
    decreases n,
{
    if n == 0 {
        f4_zero()
    } else {
        let x = t(n - 1);
        f4_add(f4_sum_sq(t, (n - 1) as nat, d, e, p), f4_mul(x, x, d, e, p), p)
    }
}

/// The product of `(s[a] - s[b])^2` over the pairs `a < b < 6` that come before
/// `(i, j)` in lexicographic order.
pub open spec fn ig_prod10(s: Seq<F4>, i: nat, j: nat, d: int, e: (int, int), p: int) -> F4
    decreases i, j,
{
    if i + 1 < j && j <= 6 {
        let x = ig_diff(s, i as usize, (j - 1) as usize, p);
        f4_mul(ig_prod10(s, i, (j - 1) as nat, d, e, p), f4_mul(x, x, d, e, p), d, e, p)
    } else if i == 0 || i > 6 {
        f4_one()
    } else {
        ig_prod10(s, (i - 1) as nat, 6, d, e, p)
    }
}

/// `x / y` in `Fp4`.
pub open spec fn f4_div(x: F4, y: F4, d: int, e: (int, int), p: int) -> F4 {
    f4_mul(x, f4_inverse(y, d, e, p), d, e, p)
}

/// The invariants `(J2, J4, J6, J10)` of the six branch points `s`.
pub open spec fn ig_js(s: Seq<F4>, d: int, e: (int, int), p: int) -> (F4, F4, F4, F4) {
    let m = |x: F4, y: F4| f4_mul(x, y, d, e, p);
    let i2 = f4_sum_sq(ig_terms2(s, d, e, p), 15, d, e, p);
    let i4 = f4_sum_sq(ig_terms4(s, d, e, p), 10, d, e, p);
    let i6 = f4_sum_sq(ig_terms6(s, d, e, p), 60, d, e, p);
    let i10 = ig_prod10(s, 5, 6, d, e, p);
    let j2 = f4_div(i2, f4_const(8, p), d, e, p);
    let j4 = f4_div(f4_sub(m(m(f4_const(4, p), j2), j2), i4, p), f4_const(96, p), d, e, p);
    let j6 = f4_div(
        f4_sub(
            f4_sub(m(f4_const(8, p), f4_pow(j2, 3, d, e, p)), m(m(f4_const(160, p), j2), j4), p),
            i6,
            p,
        ),
        f4_const(576, p),
        d,
        e,
        p,
    );
    let j10 = f4_div(i10, f4_const(4096, p), d, e, p);
    (j2, j4, j6, j10)
}

/// The Igusa invariants of the Rosenhain form `(la, mu, nu)`:
/// `(J2^5 / J10, J2^3 J4 / J10, J2^2 J6 / J10)` when `J2 != 0`, else
/// `(0, J4^5 / J10^2, J4 J6 / J10)` when `J4 != 0`, else `(0, 0, J6^5 / J10^3)`.
pub open spec fn igusa_of(la: F4, mu: F4, nu: F4, d: int, e: (int, int), p: int) -> (F4, F4, F4) {
    let (j2, j4, j6, j10) = ig_js(ig_roots(la, mu, nu, d, e, p), d, e, p);
    let m = |x: F4, y: F4| f4_mul(x, y, d, e, p);
    if j2 != f4_zero() {
        (
            f4_div(f4_pow(j2, 5, d, e, p), j10, d, e, p),
            f4_div(m(f4_pow(j2, 3, d, e, p), j4), j10, d, e, p),
            f4_div(m(f4_pow(j2, 2, d, e, p), j6), j10, d, e, p),
        )
    } else if j4 != f4_zero() {
        (f4_zero(), f4_div(f4_pow(j4, 5, d, e, p), f4_pow(j10, 2, d, e, p), d, e, p), f4_div(m(j4, j6), j10, d, e, p))
    } else {
        (f4_zero(), f4_zero(), f4_div(f4_pow(j6, 5, d, e, p), f4_pow(j10, 3, d, e, p), d, e, p))
    }
}

/// Every inversion and division that computing the Igusa invariants of
/// `(la, mu, nu)` performs is by an invertible element.
pub open spec fn igusa_defined(la: F4, mu: F4, nu: F4, d: int, e: (int, int), p: int) -> bool {
    let a = f4_const(ig_point(la, mu, nu, p), p);
    let (j2, j4, j6, j10) = ig_js(ig_roots(la, mu, nu, d, e, p), d, e, p);
    &&& f4_invertible(f4_sub(f4_one(), a, p), d, e, p)
    &&& f4_invertible(f4_sub(la, a, p), d, e, p)
    &&& f4_invertible(f4_sub(mu, a, p), d, e, p)
    &&& f4_invertible(f4_sub(nu, a, p), d, e, p)
    &&& f4_invertible(f4_const(8, p), d, e, p)
    &&& f4_invertible(f4_const(96, p), d, e, p)
    &&& f4_invertible(f4_const(576, p), d, e, p)
    &&& f4_invertible(f4_const(4096, p), d, e, p)
    &&& f4_invertible(j10, d, e, p)
    &&& (j2 == f4_zero() && j4 != f4_zero() ==> f4_invertible(f4_pow(j10, 2, d, e, p), d, e, p))
    &&& (j2 == f4_zero() && j4 == f4_zero() ==> f4_invertible(f4_pow(j10, 3, d, e, p), d, e, p))
}

// =============================================================================
// Igusa invariants: computation
// =============================================================================

/// The point `ig_point(la, mu, nu)` of `Fp4`: the first of 2, 3, 4, 5 that is
/// none of `la`, `mu`, `nu`.
fn moved_point<const P: u32, const D1: u32, const D2C0: u32, const D2C1: u32>(
    la: &Fp4<P, D1, D2C0, D2C1>,
    mu: &Fp4<P, D1, D2C0, D2C1>,
    nu: &Fp4<P, D1, D2C0, D2C1>,
) -> (a: Fp4<P, D1, D2C0, D2C1>)
    requires
        valid_modulus(P as int),
        P >= 5,
    ensures
        a@ == f4_const(ig_point(la@, mu@, nu@, P as int), P as int),
{
    let ghost p = P as int;
    proof {
        lemma_small_mod(0, P as nat);
        lemma_small_mod(1, P as nat);
        lemma_small_mod(2, P as nat);
        lemma_small_mod(3, P as nat);
        lemma_small_mod(4, P as nat);
        if P > 5 {
            lemma_small_mod(5, P as nat);
        } else {
            assert(5int % 5 == 0);
        }
    }
    let one = Fp4::<P, D1, D2C0, D2C1>::one();
    let mut a = one.add(one);
    let ghost mut k: int = 2;
    while a.same_as(la) || a.same_as(mu) || a.same_as(nu)
        invariant
            valid_modulus(p),
            p == P as int,
            P >= 5,
            one@ == f4_one(),
            2 <= k <= 5,
            a@ == f4_const(k, p),
            forall|j: int| 2 <= j < k ==> !ig_free(#[trigger] f4_const(j, p), la@, mu@, nu@),
            0int % p == 0 && 1int % p == 1 && 2int % p == 2 && 3int % p == 3 && 4int % p == 4,
            5int % p == 0 || 5int % p == 5,
        decreases 5 - k,
    {
        proof {
            assert(!ig_free(f4_const(k, p), la@, mu@, nu@));
            if k == 5 {
                assert(!ig_free(f4_const(2, p), la@, mu@, nu@));
                assert(!ig_free(f4_const(3, p), la@, mu@, nu@));
                assert(!ig_free(f4_const(4, p), la@, mu@, nu@));
                assert(false);
            }
        }
        a = a.add(one);
        proof {
            k = k + 1;
        }
    }
    a
}

/// `I2 = sum over the rows of G2 of ((s0 - s1)(s2 - s3)(s4 - s5))^2`.
fn sum_i2<const P: u32, const D1: u32, const D2C0: u32, const D2C1: u32>(
    rs: &[Fp4<P, D1, D2C0, D2C1>; 6],
) -> (r: Fp4<P, D1, D2C0, D2C1>)
    requires
        valid_modulus(P as int),
    ensures
        r@ == f4_sum_sq(ig_terms2(f4_views(*rs), dmod(D1, P), d2_of(D2C0, D2C1, P), P as int), 15,
            dmod(D1, P), d2_of(D2C0, D2C1, P), P as int),
{
    let ghost s = f4_views(*rs);
    let ghost d = dmod(D1, P);
    let ghost e = d2_of(D2C0, D2C1, P);
    let ghost p = P as int;
    let mut acc = Fp4::<P, D1, D2C0, D2C1>::zero();
    let mut k: usize = 0;
    while k < 15
        invariant
            valid_modulus(p),
            p == P as int,
            d == dmod(D1, P),
            e == d2_of(D2C0, D2C1, P),
            s == f4_views(*rs),
            k <= 15,
            acc@ == f4_sum_sq(ig_terms2(s, d, e, p), k as nat, d, e, p),
        decreases 15 - k,
    {
        let g = G2[k];
        let t = rs[g[0]].sub(rs[g[1]]).mul(rs[g[2]].sub(rs[g[3]])).mul(rs[g[4]].sub(rs[g[5]]));
        assert(t@ == ig_terms2(s, d, e, p)(k as int));
        acc = acc.add(t.mul(t));
        k = k + 1;
    }
    acc
}

/// `(s0 - s1)(s1 - s2)(s2 - s0)(s3 - s4)(s4 - s5)(s5 - s3)` for the indices of the row `g`.
fn triple_pair_term<const P: u32, const D1: u32, const D2C0: u32, const D2C1: u32>(
    rs: &[Fp4<P, D1, D2C0, D2C1>; 6],
    g: [usize; 6],
) -> (r: Fp4<P, D1, D2C0, D2C1>)
    requires
        forall|i: int| 0 <= i < 6 ==> g[i] < 6,
    ensures
        r@ == ig_t4(f4_views(*rs), g, dmod(D1, P), d2_of(D2C0, D2C1, P), P as int),
{
    let ghost s = f4_views(*rs);
    let ghost p = P as int;
    let x01 = rs[g[0]].sub(rs[g[1]]);
    let x12 = rs[g[1]].sub(rs[g[2]]);
    let x20 = rs[g[2]].sub(rs[g[0]]);
    let x34 = rs[g[3]].sub(rs[g[4]]);
    let x45 = rs[g[4]].sub(rs[g[5]]);
    let x53 = rs[g[5]].sub(rs[g[3]]);
    assert(x01@ == ig_diff(s, g[0], g[1], p));
    assert(x12@ == ig_diff(s, g[1], g[2], p));
    assert(x20@ == ig_diff(s, g[2], g[0], p));
    assert(x34@ == ig_diff(s, g[3], g[4], p));
    assert(x45@ == ig_diff(s, g[4], g[5], p));
    assert(x53@ == ig_diff(s, g[5], g[3], p));
    x01.mul(x12).mul(x20).mul(x34).mul(x45).mul(x53)
}

/// `I4 = sum over the rows of G4 of ((s0 - s1)(s1 - s2)(s2 - s0)(s3 - s4)(s4 - s5)(s5 - s3))^2`.
fn sum_i4<const P: u32, const D1: u32, const D2C0: u32, const D2C1: u32>(
    rs: &[Fp4<P, D1, D2C0, D2C1>; 6],
) -> (r: Fp4<P, D1, D2C0, D2C1>)
    requires
        valid_modulus(P as int),
    ensures
        r@ == f4_sum_sq(ig_terms4(f4_views(*rs), dmod(D1, P), d2_of(D2C0, D2C1, P), P as int), 10,
            dmod(D1, P), d2_of(D2C0, D2C1, P), P as int),
{
    let ghost s = f4_views(*rs);
    let ghost d = dmod(D1, P);
    let ghost e = d2_of(D2C0, D2C1, P);
    let ghost p = P as int;
    let mut acc = Fp4::<P, D1, D2C0, D2C1>::zero();
    let mut k: usize = 0;
    while k < 10
        invariant
            valid_modulus(p),
            p == P as int,
            d == dmod(D1, P),
            e == d2_of(D2C0, D2C1, P),
            s == f4_views(*rs),
            k <= 10,
            acc@ == f4_sum_sq(ig_terms4(s, d, e, p), k as nat, d, e, p),
        decreases 10 - k,
    {
        let g = G4[k];
        let t = triple_pair_term(rs, g);
        assert(t@ == ig_terms4(s, d, e, p)(k as int));
        acc = acc.add(t.mul(t));
        k = k + 1;
    }
    acc
}

/// `I6 = sum over the rows of G6 of the squares of the `I4` terms multiplied
/// by `(s0 - s3)(s1 - s4)(s2 - s5)`.
fn sum_i6<const P: u32, const D1: u32, const D2C0: u32, const D2C1: u32>(
    rs: &[Fp4<P, D1, D2C0, D2C1>; 6],
) -> (r: Fp4<P, D1, D2C0, D2C1>)
    requires
        valid_modulus(P as int),
    ensures
        r@ == f4_sum_sq(ig_terms6(f4_views(*rs), dmod(D1, P), d2_of(D2C0, D2C1, P), P as int), 60,
            dmod(D1, P), d2_of(D2C0, D2C1, P), P as int),
{
    let ghost s = f4_views(*rs);
    let ghost d = dmod(D1, P);
    let ghost e = d2_of(D2C0, D2C1, P);
    let ghost p = P as int;
    let mut acc = Fp4::<P, D1, D2C0, D2C1>::zero();
    let mut k: usize = 0;
    while k < 60
        invariant
            valid_modulus(p),
            p == P as int,
            d == dmod(D1, P),
            e == d2_of(D2C0, D2C1, P),
            s == f4_views(*rs),
            k <= 60,
            acc@ == f4_sum_sq(ig_terms6(s, d, e, p), k as nat, d, e, p),
        decreases 60 - k,
    {
        let g = G6[k];
        let t4 = triple_pair_term(rs, g);
        let t = t4.mul(rs[g[0]].sub(rs[g[3]])).mul(rs[g[1]].sub(rs[g[4]])).mul(rs[g[2]].sub(rs[g[5]]));
        assert(t@ == ig_terms6(s, d, e, p)(k as int));
        acc = acc.add(t.mul(t));
        k = k + 1;
    }
    acc
}

/// `I10 = product of (s_i - s_j)^2 over the pairs i < j`.
fn prod_i10<const P: u32, const D1: u32, const D2C0: u32, const D2C1: u32>(
    rs: &[Fp4<P, D1, D2C0, D2C1>; 6],
) -> (r: Fp4<P, D1, D2C0, D2C1>)
    requires
        valid_modulus(P as int),
    ensures
        r@ == ig_prod10(f4_views(*rs), 5, 6, dmod(D1, P), d2_of(D2C0, D2C1, P), P as int),
{
    let ghost s = f4_views(*rs);
    let ghost d = dmod(D1, P);
    let ghost e = d2_of(D2C0, D2C1, P);
    let ghost p = P as int;
    let mut acc = Fp4::<P, D1, D2C0, D2C1>::one();
    let mut i: usize = 0;
    while i < 6
        invariant
            valid_modulus(p),
            p == P as int,
            d == dmod(D1, P),
            e == d2_of(D2C0, D2C1, P),
            s == f4_views(*rs),
            i <= 6,
            acc@ == ig_prod10(s, i as nat, (i + 1) as nat, d, e, p),
        decreases 6 - i,
    {
        let mut j: usize = i + 1;
        while j < 6
            invariant
                valid_modulus(p),
                p == P as int,
                d == dmod(D1, P),
                e == d2_of(D2C0, D2C1, P),
                s == f4_views(*rs),
                i < 6,
                i + 1 <= j <= 6,
                acc@ == ig_prod10(s, i as nat, j as nat, d, e, p),
            decreases 6 - j,
        {
            let diff = rs[i].sub(rs[j]);
            acc = acc.mul(diff.mul(diff));
            j = j + 1;
        }
        i = i + 1;
    }
    acc
}

impl<const P: u32, const D1: u32, const D2C0: u32, const D2C1: u32> Rosenhain<Fp4<P, D1, D2C0, D2C1>> {
    /// The Igusa invariants of the curve, computed from the six branch points
    /// after a Möbius map sends a point other than the branch points to infinity.
    pub fn igusa_invariants(&self) -> (r: IgusaInvariants<Fp4<P, D1, D2C0, D2C1>>)
        requires
            igusa_defined(self.la@, self.mu@, self.nu@, dmod(D1, P), d2_of(D2C0, D2C1, P), P as int),
        ensures
            (r.i1@, r.i2@, r.i3@) == igusa_of(self.la@, self.mu@, self.nu@, dmod(D1, P), d2_of(D2C0, D2C1, P), P as int),
            is_prime(P as int) ==> igusa_relations(
                (r.i1@, r.i2@, r.i3@),
                ig_js(ig_roots(self.la@, self.mu@, self.nu@, dmod(D1, P), d2_of(D2C0, D2C1, P), P as int), dmod(D1, P), d2_of(D2C0, D2C1, P), P as int),
                dmod(D1, P),
                d2_of(D2C0, D2C1, P),
                P as int,
            ),
    {
        let _ = self.la.c0.c0.value();
        let ghost p = P as int;
        let ghost d = dmod(D1, P);
        let ghost e = d2_of(D2C0, D2C1, P);
        proof {
            assert(P >= 5) by {
                assert(f4_const(8, p) != f4_zero());
                assert(f4_const(96, p) != f4_zero());
                if P == 2 || P == 3 || P == 4 {
                    assert(8int % 2 == 0 && 96int % 3 == 0 && 8int % 4 == 0);
                    assert(false);
                }
            }
        }
        let a = moved_point(&self.la, &self.mu, &self.nu);
        let one = Fp4::<P, D1, D2C0, D2C1>::one();
        let zero = Fp4::<P, D1, D2C0, D2C1>::zero();
        let rs: [Fp4<P, D1, D2C0, D2C1>; 6] = [
            zero,
            one,
            one.sub(a).inv(),
            self.la.mul(self.la.sub(a).inv()),
            self.mu.mul(self.mu.sub(a).inv()),
            self.nu.mul(self.nu.sub(a).inv()),
        ];
        proof {
            assert(f4_views(rs) =~= ig_roots(self.la@, self.mu@, self.nu@, d, e, p));
        }
        let i2 = sum_i2(&rs);
        let i4 = sum_i4(&rs);
        let i6 = sum_i6(&rs);
        let i10 = prod_i10(&rs);
        let j2 = i2.div(Fp4::of_u32(8));
        let j4 = Fp4::of_u32(4).mul(j2).mul(j2).sub(i4).div(Fp4::of_u32(96));
        let j6 = Fp4::of_u32(8).mul(j2.pow(3)).sub(Fp4::of_u32(160).mul(j2).mul(j4)).sub(i6).div(
            Fp4::of_u32(576),
        );
        let j10 = i10.div(Fp4::of_u32(4096));
        let r = if !j2.is_zero() {
            IgusaInvariants { i1: j2.pow(5).div(j10), i2: j2.pow(3).mul(j4).div(j10), i3: j2.pow(2).mul(j6).div(j10) }
        } else if !j4.is_zero() {
            IgusaInvariants { i1: zero, i2: j4.pow(5).div(j10.pow(2)), i3: j4.mul(j6).div(j10) }
        } else {
            IgusaInvariants { i1: zero, i2: zero, i3: j6.pow(5).div(j10.pow(3)) }
        };
        proof {
            if is_prime(p) {
                lemma_igusa_relations(self.la@, self.mu@, self.nu@, d, e, p);
            }
        }
        r
    }
}

// =============================================================================
// Igusa invariants: where they are defined
// =============================================================================

/// For a prime `p > 5`, the constants 8, 96, 576 and 4096 are nonzero modulo `p`.
proof fn lemma_small_constants(p: int)
    requires
        is_prime(p),
        p > 5,
    ensures
        8int % p != 0,
        96int % p != 0,
        576int % p != 0,
        4096int % p != 0,
{
    lemma_small_mod(2, p as nat);
    lemma_small_mod(3, p as nat);
    lemma_small_mod(4, p as nat);
    if 8int % p == 0 {
        lemma_euclid(2, 4, p);
    }
    if 12int % p == 0 {
        lemma_euclid(3, 4, p);
    }
    if 96int % p == 0 {
        lemma_euclid(8, 12, p);
    }
    if 6int % p == 0 {
        lemma_euclid(2, 3, p);
    }
    if 576int % p == 0 {
        lemma_euclid(96, 6, p);
    }
    if 64int % p == 0 {
        lemma_euclid(8, 8, p);
    }
    if 512int % p == 0 {
        lemma_euclid(8, 64, p);
    }
    if 4096int % p == 0 {
        lemma_euclid(8, 512, p);
    }
}

/// A constant that is nonzero modulo `p` can be inverted in the field `Fp4`.
proof fn lemma_const_invertible(c: int, d: int, e: (int, int), p: int)
    requires
        f4_field_params(d, e, p),
        c % p != 0,
    ensures
        f4_invertible(f4_const(c, p), d, e, p),
        f4_reduced(f4_const(c, p), p),
{
    lemma_small_mod(0, p as nat);
    lemma_mod_range(c, p);
    lemma_f4_nonzero_invertible(f4_const(c, p), d, e, p);
}

/// The Möbius map `x -> x / (x - a)` is one-to-one on the points other than `a`.
proof fn lemma_moebius_injective(x: F4, y: F4, a: F4, d: int, e: (int, int), p: int)
    requires
        f4_field_params(d, e, p),
        f4_reduced(x, p),
        f4_reduced(y, p),
        f4_reduced(a, p),
        a != f4_zero(),
        x != a,
        y != a,
        ig_moebius(x, a, d, e, p) == ig_moebius(y, a, d, e, p),
    ensures
        x == y,
{
    let m = |u: F4, v: F4| f4_mul(u, v, d, e, p);
    let u = f4_sub(x, a, p);
    let v = f4_sub(y, a, p);
    lemma_f4_sub_nonzero(x, a, p);
    lemma_f4_sub_nonzero(y, a, p);
    lemma_f4_sub_reduced(x, a, p);
    lemma_f4_sub_reduced(y, a, p);
    lemma_f4_nonzero_invertible(u, d, e, p);
    lemma_f4_nonzero_invertible(v, d, e, p);
    let mx = m(x, f4_inverse(u, d, e, p));
    let my = m(y, f4_inverse(v, d, e, p));
    lemma_f4_div_mul(x, u, d, e, p);
    lemma_f4_div_mul(y, v, d, e, p);
    lemma_f4_mul_assoc(mx, u, v, d, e, p);
    lemma_f4_mul_comm(u, v, d, e, p);
    lemma_f4_mul_assoc(my, v, u, d, e, p);
    assert(m(x, v) == m(y, u));
    lemma_f4_mul_sub(x, y, a, d, e, p);
    lemma_f4_mul_sub(y, x, a, d, e, p);
    lemma_f4_mul_comm(x, y, d, e, p);
    lemma_f4_mul_reduced(x, a, d, e, p);
    lemma_f4_mul_reduced(y, a, d, e, p);
    lemma_f4_sub_cancel(m(x, y), m(x, a), m(y, a), p);
    lemma_f4_nonzero_invertible(a, d, e, p);
    lemma_f4_mul_div(x, a, d, e, p);
    lemma_f4_mul_div(y, a, d, e, p);
}

/// The Möbius map `x -> x / (x - a)` never gives 1, and gives 0 only at 0.
proof fn lemma_moebius_values(x: F4, a: F4, d: int, e: (int, int), p: int)
    requires
        f4_field_params(d, e, p),
        f4_reduced(x, p),
        f4_reduced(a, p),
        a != f4_zero(),
        x != a,
    ensures
        ig_moebius(x, a, d, e, p) != f4_one(),
        x != f4_zero() ==> ig_moebius(x, a, d, e, p) != f4_zero(),
        f4_reduced(ig_moebius(x, a, d, e, p), p),
{
    let m = |u: F4, v: F4| f4_mul(u, v, d, e, p);
    let u = f4_sub(x, a, p);
    lemma_f4_sub_nonzero(x, a, p);
    lemma_f4_sub_reduced(x, a, p);
    lemma_f4_nonzero_invertible(u, d, e, p);
    lemma_f4_inverse_nonzero(u, d, e, p);
    lemma_f4_mul_reduced(x, f4_inverse(u, d, e, p), d, e, p);
    if ig_moebius(x, a, d, e, p) == f4_one() {
        lemma_f4_div_mul(x, u, d, e, p);
        lemma_f4_mul_one(u, d, e, p);
        lemma_f4_mul_comm(f4_one(), u, d, e, p);
        lemma_f4_sub_eq_self(x, a, p);
    }
    if x != f4_zero() {
        lemma_f4_domain(x, f4_inverse(u, d, e, p), d, e, p);
    }
}

/// Over the field `Fp4`, the product of the squared differences of six distinct
/// points is nonzero.
proof fn lemma_prod10_nonzero(s: Seq<F4>, i: nat, j: nat, d: int, e: (int, int), p: int)
    requires
        f4_field_params(d, e, p),
        s.len() == 6,
        forall|k: int| 0 <= k < 6 ==> f4_reduced(#[trigger] s[k], p),
        forall|k1: int, k2: int| 0 <= k1 < k2 < 6 ==> #[trigger] s[k1] != #[trigger] s[k2],
    ensures
        ig_prod10(s, i, j, d, e, p) != f4_zero(),
        f4_reduced(ig_prod10(s, i, j, d, e, p), p),
    decreases i, j,
{
    if i + 1 < j && j <= 6 {
        lemma_prod10_nonzero(s, i, (j - 1) as nat, d, e, p);
        let x = ig_diff(s, i as usize, (j - 1) as usize, p);
        assert(s[i as int] != s[j - 1]);
        lemma_f4_sub_nonzero(s[i as int], s[j - 1], p);
        lemma_f4_sub_reduced(s[i as int], s[j - 1], p);
        lemma_f4_domain(x, x, d, e, p);
        lemma_f4_mul_reduced(x, x, d, e, p);
        let prev = ig_prod10(s, i, (j - 1) as nat, d, e, p);
        lemma_f4_domain(prev, f4_mul(x, x, d, e, p), d, e, p);
        lemma_f4_mul_reduced(prev, f4_mul(x, x, d, e, p), d, e, p);
    } else if i == 0 || i > 6 {
        lemma_small_mod(0, p as nat);
        lemma_small_mod(1, p as nat);
    } else {
        lemma_prod10_nonzero(s, (i - 1) as nat, 6, d, e, p);
    }
}

/// Every Rosenhain form over the field `Fp4` with `P > 5` has Igusa
/// invariants: all the inversions and divisions that computing them performs
/// are by invertible elements.
#[verifier::spinoff_prover]
#[verifier::rlimit(50)]
pub proof fn lemma_igusa_defined(la: F4, mu: F4, nu: F4, d: int, e: (int, int), p: int)
    requires
        f4_field_params(d, e, p),
        p > 5,
        f4_reduced(la, p),
        f4_reduced(mu, p),
        f4_reduced(nu, p),
        rosenhain_valid(la, mu, nu),
    ensures
        igusa_defined(la, mu, nu, d, e, p),
{
    let m = |u: F4, v: F4| f4_mul(u, v, d, e, p);
    let one = f4_one();
    let zero = f4_zero();
    lemma_small_mod(0, p as nat);
    lemma_small_mod(1, p as nat);
    lemma_small_mod(2, p as nat);
    lemma_small_mod(3, p as nat);
    lemma_small_mod(4, p as nat);
    lemma_small_mod(5, p as nat);
    // the point sent to infinity is none of 0, 1, la, mu, nu
    let k = ig_point(la, mu, nu, p);
    let a = f4_const(k, p);
    assert(2 <= k <= 5);
    assert(a == ((k, 0int), (0int, 0int)));
    assert(ig_free(a, la, mu, nu));
    assert(a != zero && a != one && f4_reduced(a, p));
    assert(f4_reduced(one, p) && f4_reduced(zero, p));
    // the divisors 1 - a, la - a, mu - a, nu - a
    lemma_f4_sub_nonzero(one, a, p);
    lemma_f4_sub_nonzero(la, a, p);
    lemma_f4_sub_nonzero(mu, a, p);
    lemma_f4_sub_nonzero(nu, a, p);
    lemma_f4_sub_reduced(one, a, p);
    lemma_f4_sub_reduced(la, a, p);
    lemma_f4_sub_reduced(mu, a, p);
    lemma_f4_sub_reduced(nu, a, p);
    lemma_f4_nonzero_invertible(f4_sub(one, a, p), d, e, p);
    lemma_f4_nonzero_invertible(f4_sub(la, a, p), d, e, p);
    lemma_f4_nonzero_invertible(f4_sub(mu, a, p), d, e, p);
    lemma_f4_nonzero_invertible(f4_sub(nu, a, p), d, e, p);
    // the constants
    lemma_small_constants(p);
    lemma_const_invertible(8, d, e, p);
    lemma_const_invertible(96, d, e, p);
    lemma_const_invertible(576, d, e, p);
    lemma_const_invertible(4096, d, e, p);
    // the six branch points stay distinct
    let s = ig_roots(la, mu, nu, d, e, p);
    let r2 = f4_inverse(f4_sub(one, a, p), d, e, p);
    assert(r2 == ig_moebius(one, a, d, e, p)) by {
        lemma_f4_inverse_nonzero(f4_sub(one, a, p), d, e, p);
        lemma_f4_mul_one(r2, d, e, p);
        lemma_f4_mul_comm(r2, one, d, e, p);
    }
    lemma_moebius_values(one, a, d, e, p);
    lemma_moebius_values(la, a, d, e, p);
    lemma_moebius_values(mu, a, d, e, p);
    lemma_moebius_values(nu, a, d, e, p);
    if s[2] == s[3] {
        lemma_moebius_injective(one, la, a, d, e, p);
    }
    if s[2] == s[4] {
        lemma_moebius_injective(one, mu, a, d, e, p);
    }
    if s[2] == s[5] {
        lemma_moebius_injective(one, nu, a, d, e, p);
    }
    if s[3] == s[4] {
        lemma_moebius_injective(la, mu, a, d, e, p);
    }
    if s[3] == s[5] {
        lemma_moebius_injective(la, nu, a, d, e, p);
    }
    if s[4] == s[5] {
        lemma_moebius_injective(mu, nu, a, d, e, p);
    }
    assert forall|k1: int, k2: int| 0 <= k1 < k2 < 6 implies #[trigger] s[k1] != #[trigger] s[k2] by {}
    assert forall|k1: int| 0 <= k1 < 6 implies f4_reduced(#[trigger] s[k1], p) by {}
    lemma_prod10_nonzero(s, 5, 6, d, e, p);
    // J10 and its powers
    let i10 = ig_prod10(s, 5, 6, d, e, p);
    let c = f4_const(4096, p);
    lemma_f4_inverse_nonzero(c, d, e, p);
    lemma_f4_domain(i10, f4_inverse(c, d, e, p), d, e, p);
    let j10 = m(i10, f4_inverse(c, d, e, p));
    lemma_f4_mul_reduced(i10, f4_inverse(c, d, e, p), d, e, p);
    lemma_f4_nonzero_invertible(j10, d, e, p);
    assert(f4_pow(j10, 2, d, e, p) == m(j10, m(j10, one))) by {
        reveal_with_fuel(mpow, 3);
    }
    assert(f4_pow(j10, 3, d, e, p) == m(j10, m(j10, m(j10, one)))) by {
        reveal_with_fuel(mpow, 4);
    }
    lemma_f4_mul_one(j10, d, e, p);
    lemma_f4_domain(j10, j10, d, e, p);
    lemma_f4_mul_reduced(j10, j10, d, e, p);
    lemma_f4_nonzero_invertible(m(j10, j10), d, e, p);
    lemma_f4_domain(j10, m(j10, j10), d, e, p);
    lemma_f4_mul_reduced(j10, m(j10, j10), d, e, p);
    lemma_f4_nonzero_invertible(m(j10, m(j10, j10)), d, e, p);
}

/// The Igusa invariants `i` and the invariants `js = (J2, J4, J6, J10)` of the
/// branch points are related as the invariants are defined:
/// `I1 J10 = J2^5`, `I2 J10 = J2^3 J4`, `I3 J10 = J2^2 J6` when `J2 != 0`;
/// `I1 = 0`, `I2 J10^2 = J4^5`, `I3 J10 = J4 J6` when `J2 = 0 != J4`; and
/// `I1 = I2 = 0`, `I3 J10^3 = J6^5` when `J2 = J4 = 0`.
pub open spec fn igusa_relations(i: (F4, F4, F4), js: (F4, F4, F4, F4), d: int, e: (int, int), p: int) -> bool {
    let (j2, j4, j6, j10) = js;
    let m = |x: F4, y: F4| f4_mul(x, y, d, e, p);
    &&& j2 != f4_zero() ==> m(i.0, j10) == f4_pow(j2, 5, d, e, p) && m(i.1, j10) == m(f4_pow(j2, 3, d, e, p), j4) && m(
        i.2,
        j10,
    ) == m(f4_pow(j2, 2, d, e, p), j6)
    &&& j2 == f4_zero() && j4 != f4_zero() ==> i.0 == f4_zero() && m(i.1, f4_pow(j10, 2, d, e, p)) == f4_pow(j4, 5, d, e, p)
        && m(i.2, j10) == m(j4, j6)
    &&& j2 == f4_zero() && j4 == f4_zero() ==> i.0 == f4_zero() && i.1 == f4_zero() && m(i.2, f4_pow(j10, 3, d, e, p))
        == f4_pow(j6, 5, d, e, p)
}

/// Law: the Igusa invariants of a Rosenhain form satisfy the relations that
/// define them from the invariants `J2, J4, J6, J10` of its six branch points.
pub proof fn lemma_igusa_relations(la: F4, mu: F4, nu: F4, d: int, e: (int, int), p: int)
    requires
        is_prime(p),
        valid_modulus(p),
        igusa_defined(la, mu, nu, d, e, p),
    ensures
        igusa_relations(igusa_of(la, mu, nu, d, e, p), ig_js(ig_roots(la, mu, nu, d, e, p), d, e, p), d, e, p),
{
    let (j2, j4, j6, j10) = ig_js(ig_roots(la, mu, nu, d, e, p), d, e, p);
    let m = |x: F4, y: F4| f4_mul(x, y, d, e, p);
    assert(f4_pow(j2, 5, d, e, p) == m(j2, f4_pow(j2, 4, d, e, p)));
    assert(f4_pow(j4, 5, d, e, p) == m(j4, f4_pow(j4, 4, d, e, p)));
    assert(f4_pow(j6, 5, d, e, p) == m(j6, f4_pow(j6, 4, d, e, p)));
    lemma_f4_mul_reduced(j2, f4_pow(j2, 4, d, e, p), d, e, p);
    lemma_f4_mul_reduced(j4, f4_pow(j4, 4, d, e, p), d, e, p);
    lemma_f4_mul_reduced(j6, f4_pow(j6, 4, d, e, p), d, e, p);
    lemma_f4_mul_reduced(f4_pow(j2, 3, d, e, p), j4, d, e, p);
    lemma_f4_mul_reduced(f4_pow(j2, 2, d, e, p), j6, d, e, p);
    lemma_f4_mul_reduced(j4, j6, d, e, p);
    if j2 != f4_zero() {
        lemma_f4_div_mul(f4_pow(j2, 5, d, e, p), j10, d, e, p);
        lemma_f4_div_mul(m(f4_pow(j2, 3, d, e, p), j4), j10, d, e, p);
        lemma_f4_div_mul(m(f4_pow(j2, 2, d, e, p), j6), j10, d, e, p);
    } else if j4 != f4_zero() {
        lemma_f4_div_mul(f4_pow(j4, 5, d, e, p), f4_pow(j10, 2, d, e, p), d, e, p);
        lemma_f4_div_mul(m(j4, j6), j10, d, e, p);
    } else {
        lemma_f4_div_mul(f4_pow(j6, 5, d, e, p), f4_pow(j10, 3, d, e, p), d, e, p);
    }
}

} // verus!
