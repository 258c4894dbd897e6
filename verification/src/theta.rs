//! Squared theta null-points of principally polarized abelian surfaces and
//! their (2,2)-isogenies, over `Fp4` and over `Fp2`.
use crate::fp4::{
    f4_imag_value, fp4_sqrt_value,
    d2_of, f4_add, f4_field, f4_field_params, f4_inverse, f4_invertible, f4_is_imag, f4_mul, f4_neg,
    f4_norm, f4_one, f4_reduced, f4_sub, f4_views, f4_zero, lemma_f2_norm_zero, lemma_f4_div_mul,
    lemma_f4_domain, lemma_f4_inverse_nonzero, lemma_f4_mul4, lemma_f4_mul_assoc, lemma_f4_mul_comm,
    lemma_f4_mul_div, lemma_f4_mul_left_comm, lemma_f4_mul_one, lemma_f4_mul_reduced,
    lemma_f4_nonzero_invertible, lemma_f4_root_nonzero, lemma_f4_sub_nonzero, F4, Fp4,
};
use crate::curves::{ssg_candidate, ssg_lambda, Legendre, LegendreProduct, Rosenhain};
use crate::rosenhain::rosenhain_valid;
use crate::fq::{
    dmod, f2_add, f2_field, f2_imag_value, f2_inverse, f2_is_imag, fp2_sqrt_value, f2_is_square, f2_mul, f2_neg, f2_norm, f2_reduced, f2_sub,
    valid_modulus, Fp2,
};
use crate::modular::is_euler_square;
use vstd::prelude::*;

verus! {

/// For each of the fifteen symplectic transformations, where each coordinate
/// of the squared theta null-point moves.
pub const TRANS_INDICES: [[usize; 10]; 15] = [
    [0, 1, 2, 3, 4, 5, 6, 7, 8, 9],
    [4, 1, 5, 3, 0, 2, 8, 7, 6, 9],
    [0, 7, 5, 9, 4, 2, 6, 1, 8, 3],
    [4, 7, 2, 9, 0, 5, 8, 1, 6, 3],
    [6, 7, 2, 3, 8, 5, 0, 1, 4, 9],
    [8, 7, 5, 3, 6, 2, 4, 1, 0, 9],
    [6, 1, 5, 9, 8, 2, 0, 7, 4, 3],
    [8, 1, 2, 9, 6, 5, 4, 7, 0, 3],
    [1, 4, 3, 5, 0, 2, 7, 8, 6, 9],
    [2, 3, 6, 7, 5, 8, 0, 1, 4, 9],
    [7, 8, 3, 5, 6, 2, 1, 4, 0, 9],
    [5, 3, 8, 7, 2, 6, 4, 1, 0, 9],
    [7, 4, 9, 2, 0, 5, 1, 8, 6, 3],
    [1, 8, 9, 2, 6, 5, 7, 4, 0, 3],
    [0, 7, 5, 9, 2, 4, 1, 6, 3, 8],
];

/// The unit each moved coordinate is multiplied by: 0 for 1, 1 for `i`, 2 for
/// -1 and 3 for `-i`.
pub const TRANS_SIGNS: [[usize; 10]; 15] = [
    [0, 0, 0, 0, 0, 0, 0, 0, 0, 0],
    [0, 3, 0, 3, 0, 0, 0, 3, 0, 3],
    [0, 0, 0, 2, 0, 0, 0, 0, 0, 2],
    [0, 3, 0, 1, 0, 0, 0, 3, 0, 1],
    [0, 0, 3, 3, 0, 3, 0, 0, 0, 3],
    [0, 3, 3, 2, 0, 3, 0, 3, 0, 2],
    [0, 0, 3, 1, 0, 3, 0, 0, 0, 1],
    [0, 3, 3, 0, 0, 3, 0, 3, 0, 0],
    [0, 3, 0, 3, 0, 0, 0, 3, 0, 1],
    [0, 0, 3, 3, 0, 3, 0, 0, 0, 1],
    [0, 3, 3, 2, 0, 3, 0, 3, 0, 0],
    [0, 3, 3, 2, 0, 3, 0, 3, 0, 0],
    [0, 3, 2, 3, 0, 0, 0, 3, 0, 3],
    [0, 3, 1, 2, 0, 3, 0, 3, 0, 2],
    [0, 0, 0, 2, 0, 0, 0, 0, 0, 2],
];

/// The products of square roots that make up each coordinate of the image of
/// a (2,2)-isogeny, by the index of the second factor.
pub const ISOGY_INDICES: [[usize; 10]; 4] = [
    [0, 1, 2, 3, 0, 2, 0, 1, 0, 3],
    [1, 0, 3, 2, 1, 3, 1, 0, 1, 2],
    [2, 3, 0, 1, 2, 0, 2, 3, 2, 1],
    [3, 2, 1, 0, 3, 1, 3, 2, 3, 0],
];

/// The signs of those products.
pub const ISOGY_SIGNS: [[i32; 10]; 4] = [
    [1, 1, 1, 1, 1, 1, 1, 1, 1, 1],
    [1, 1, 1, 1, -1, -1, 1, 1, -1, -1],
    [1, 1, 1, 1, 1, 1, -1, -1, -1, -1],
    [1, 1, 1, 1, -1, -1, -1, -1, 1, 1],
];

/// For a null-point of a product of elliptic curves, by the index of its first
/// zero coordinate, where each coordinate moves.
pub const SPLIT_INDICES: [[usize; 10]; 10] = [
    [9, 2, 1, 8, 6, 5, 4, 7, 3, 0],
    [2, 9, 8, 1, 6, 5, 7, 4, 3, 0],
    [1, 8, 9, 2, 5, 6, 4, 7, 3, 0],
    [8, 1, 2, 9, 5, 6, 7, 4, 3, 0],
    [6, 2, 5, 8, 9, 1, 3, 7, 4, 0],
    [5, 8, 6, 2, 1, 9, 3, 7, 4, 0],
    [4, 7, 1, 8, 3, 5, 9, 2, 6, 0],
    [7, 4, 8, 1, 3, 5, 2, 9, 6, 0],
    [3, 7, 5, 8, 4, 1, 6, 2, 9, 0],
    [0, 1, 2, 3, 4, 5, 6, 7, 8, 9],
];

/// The unit each of those coordinates is multiplied by, coded as in `TRANS_SIGNS`.
pub const SPLIT_SIGNS: [[usize; 10]; 10] = [
    [0, 3, 3, 0, 1, 0, 1, 0, 0, 0],
    [0, 1, 1, 0, 1, 0, 1, 2, 0, 0],
    [0, 1, 1, 0, 1, 2, 1, 0, 0, 0],
    [0, 3, 3, 0, 3, 0, 3, 0, 2, 2],
    [0, 3, 3, 0, 3, 2, 3, 0, 0, 0],
    [0, 1, 1, 0, 3, 0, 3, 0, 0, 0],
    [0, 3, 3, 0, 3, 0, 3, 2, 0, 0],
    [0, 1, 1, 0, 3, 0, 3, 0, 0, 0],
    [0, 1, 1, 2, 1, 0, 1, 0, 0, 2],
    [0, 0, 0, 0, 0, 0, 0, 0, 0, 0],
];

/// A squared theta null-point.
#[derive(Copy, Clone, Debug, Eq, PartialEq)]
pub struct Theta<T> {
    pub null: [T; 10],
}

/// The number of (2,2)-isogenies computed: the eight good extensions, or all fifteen.
pub open spec fn th_isogeny_count(is_good: bool) -> int {
    if is_good {
        8
    } else {
        15
    }
}

// =============================================================================
// Over Fp4: specification
// =============================================================================

/// `x` multiplied by the unit coded by `sign`: 0 for 1, 1 for `i`, 2 for -1
/// and 3 for `-i`.
pub open spec fn th_signed4(sign: usize, i: F4, x: F4, d: int, e: (int, int), p: int) -> F4 {
    if sign == 0 {
        x
    } else if sign == 1 {
        f4_mul(i, x, d, e, p)
    } else if sign == 2 {
        f4_neg(x, p)
    } else {
        f4_mul(f4_neg(i, p), x, d, e, p)
    }
}

/// The first `n` coordinates of `null` moved and multiplied as the
/// transformation `m` says, onto a null-point that starts at zero.
pub open spec fn th_moved4(null: Seq<F4>, m: int, i: F4, n: nat, d: int, e: (int, int), p: int) -> Seq<F4>
    decreases n,
{
    if n == 0 {
        Seq::new(10, |j: int| f4_zero())
    } else {
        let k = n - 1;
        th_moved4(null, m, i, (n - 1) as nat, d, e, p).update(
            TRANS_INDICES[m][k] as int,
            th_signed4(TRANS_SIGNS[m][k], i, null[k], d, e, p),
        )
    }
}

/// The null-point `null` transformed by the `m`-th symplectic matrix, with `i`
/// the square root of -1.
pub open spec fn th_transform4(null: Seq<F4>, m: int, i: F4, d: int, e: (int, int), p: int) -> Seq<F4> {
    th_moved4(null, m, i, 10, d, e, p)
}

/// `s` are square roots for a (2,2)-isogeny from the transformed null-point
/// `t`: `s0 = t0` and `s_k^2 = t0 t_k` for `k = 1, 2, 3`.
pub open spec fn th_iso_roots4(t: Seq<F4>, s: Seq<F4>, d: int, e: (int, int), p: int) -> bool {
    &&& s.len() == 4
    &&& s[0] == t[0]
    &&& forall|k: int| 1 <= k < 4 ==> #[trigger] f4_mul(s[k], s[k], d, e, p) == f4_mul(t[0], t[k], d, e, p)
}

/// The product `s_a s_b`, the factor of smaller index first.
pub open spec fn th_pm4(s: Seq<F4>, a: int, b: int, d: int, e: (int, int), p: int) -> F4 {
    if a <= b {
        f4_mul(s[a], s[b], d, e, p)
    } else {
        f4_mul(s[b], s[a], d, e, p)
    }
}

/// The `k`-th signed product that the coordinate `num` of the image sums.
pub open spec fn th_iso_term4(s: Seq<F4>, k: int, num: int, d: int, e: (int, int), p: int) -> F4 {
    let v = th_pm4(s, ISOGY_INDICES[k][num] as int, k, d, e, p);
    if ISOGY_SIGNS[k][num] == 1 {
        v
    } else {
        f4_neg(v, p)
    }
}

/// The sum of the first `k` signed products of the coordinate `num`.
pub open spec fn th_iso_partial4(s: Seq<F4>, num: int, k: nat, d: int, e: (int, int), p: int) -> F4
    decreases k,
{
    if k == 0 {
        f4_zero()
    } else {
        f4_add(th_iso_partial4(s, num, (k - 1) as nat, d, e, p), th_iso_term4(s, k - 1, num, d, e, p), p)
    }
}

/// The squared theta null-point of the image of the (2,2)-isogeny with square roots `s`.
pub open spec fn th_iso_image4(s: Seq<F4>, d: int, e: (int, int), p: int) -> Seq<F4> {
    Seq::new(10, |num: int| th_iso_partial4(s, num, 4, d, e, p))
}

/// `img` is the image of `null` under the `m`-th (2,2)-isogeny, for a square
/// root `i` of -1 and a choice `s` of the square roots.
pub open spec fn th_isogenous4(null: Seq<F4>, m: int, img: Seq<F4>, d: int, e: (int, int), p: int) -> bool {
    exists|i: F4, s: Seq<F4>|
        f4_is_imag(i, d, e, p) && #[trigger] th_iso_roots4(th_transform4(null, m, i, d, e, p), s, d, e, p)
            && img == th_iso_image4(s, d, e, p)
}

/// The square roots that the library takes for the isogeny from the
/// transformed null-point `t`: `t0` and the roots `Fp4::sqrt` gives of
/// `t0 t_k`.
pub open spec fn th_library_roots4(t: Seq<F4>, d: int, e: (int, int), p: int) -> Seq<F4> {
    seq![
        t[0],
        fp4_sqrt_value(f4_mul(t[0], t[1], d, e, p), d, e, p),
        fp4_sqrt_value(f4_mul(t[0], t[2], d, e, p), d, e, p),
        fp4_sqrt_value(f4_mul(t[0], t[3], d, e, p), d, e, p),
    ]
}

/// The null-point of the `m`-th (2,2)-isogenous surface as the library
/// computes it: `null` transformed with the square root of -1 that
/// `Fp4::imaginary_unit` gives, then the image for the roots that `Fp4::sqrt`
/// gives.
pub open spec fn th_twoisogeny4(null: Seq<F4>, m: int, d: int, e: (int, int), p: int) -> Seq<F4> {
    th_iso_image4(th_library_roots4(th_transform4(null, m, f4_imag_value(d, e, p), d, e, p), d, e, p), d, e, p)
}

/// The first `n` coordinates moved by the identity transformation `0` are
/// those of `null`; the others are still zero.
proof fn lemma_moved4_identity(null: Seq<F4>, i: F4, n: nat, d: int, e: (int, int), p: int)
    requires
        n <= 10,
    ensures
        th_moved4(null, 0, i, n, d, e, p).len() == 10,
        forall|j: int| 0 <= j < 10 ==> #[trigger] th_moved4(null, 0, i, n, d, e, p)[j] == (if j < n { null[j] } else { f4_zero() }),
    decreases n,
{
    if n > 0 {
        lemma_moved4_identity(null, i, (n - 1) as nat, d, e, p);
        assert(TRANS_INDICES[0][n - 1] == n - 1);
        assert(TRANS_SIGNS[0][n - 1] == 0);
    }
}

/// The `m`-th (2,2)-isogeny of a null-point is the 0-th isogeny of its `m`-th
/// transform: the transformation 0 is the identity.
pub proof fn lemma_twoisogeny_through_transform4(null: Seq<F4>, m: int, d: int, e: (int, int), p: int)
    requires
        0 <= m < 15,
    ensures
        th_twoisogeny4(null, m, d, e, p) == th_twoisogeny4(th_transform4(null, m, f4_imag_value(d, e, p), d, e, p), 0, d, e, p),
{
    let i = f4_imag_value(d, e, p);
    let t = th_transform4(null, m, i, d, e, p);
    lemma_moved4_identity(t, i, 10, d, e, p);
    assert(th_transform4(t, 0, i, d, e, p) =~= t) by {
        lemma_moved4_len(null, m, i, 10, d, e, p);
    }
}

/// A transformed null-point has ten coordinates.
proof fn lemma_moved4_len(null: Seq<F4>, m: int, i: F4, n: nat, d: int, e: (int, int), p: int)
    requires
        0 <= m < 15,
        n <= 10,
    ensures
        th_moved4(null, m, i, n, d, e, p).len() == 10,
    decreases n,
{
    if n > 0 {
        lemma_moved4_len(null, m, i, (n - 1) as nat, d, e, p);
        assert(TRANS_INDICES[m][n - 1] < 10);
    }
}

/// The products `t0 t_k` of the transformed null-point `t` have square roots.
pub open spec fn th_iso_defined4(t: Seq<F4>, d: int, e: (int, int), p: int) -> bool {
    forall|k: int|
        1 <= k < 4 ==> is_euler_square(
            f2_norm(f4_norm(#[trigger] f4_mul(t[0], t[k], d, e, p), d, e, p), d, p),
            p,
        )
}

/// The `m`-th (2,2)-isogeny of `null` can be computed: whichever square root of
/// -1 transforms it, the square roots it needs exist.
pub open spec fn th_isogeny_defined4(null: Seq<F4>, m: int, d: int, e: (int, int), p: int) -> bool {
    forall|i: F4| f4_is_imag(i, d, e, p) ==> th_iso_defined4(#[trigger] th_transform4(null, m, i, d, e, p), d, e, p)
}

/// The `m`-th (2,2)-isogeny of `null` can be computed as the library does it:
/// with the square root of -1 that `Fp4::imaginary_unit` gives, the square
/// roots it needs exist.
pub open spec fn th_library_defined4(null: Seq<F4>, m: int, d: int, e: (int, int), p: int) -> bool {
    th_iso_defined4(th_transform4(null, m, f4_imag_value(d, e, p), d, e, p), d, e, p)
}

/// The denominator `n4 n5 n8` of the Rosenhain invariants of the null-point `n`.
pub open spec fn th_rosenhain_den4(n: Seq<F4>, d: int, e: (int, int), p: int) -> F4 {
    f4_mul(f4_mul(n[4], n[5], d, e, p), n[8], d, e, p)
}

/// The Rosenhain invariants `(n0 n5 n6, n2 n4 n6, n0 n2 n8) / (n4 n5 n8)` of the
/// squared theta null-point `n`.
pub open spec fn th_rosenhain4(n: Seq<F4>, d: int, e: (int, int), p: int) -> (F4, F4, F4) {
    let m = |x: F4, y: F4| f4_mul(x, y, d, e, p);
    let inv = f4_inverse(th_rosenhain_den4(n, d, e, p), d, e, p);
    (m(m(m(n[0], n[5]), n[6]), inv), m(m(m(n[2], n[4]), n[6]), inv), m(m(m(n[0], n[2]), n[8]), inv))
}

/// The denominator `la nu (mu - 1) (la - nu)` of the radicands of the
/// null-point of the Rosenhain form `(la, mu, nu)`.
pub open spec fn th_den4(la: F4, mu: F4, nu: F4, d: int, e: (int, int), p: int) -> F4 {
    let m = |x: F4, y: F4| f4_mul(x, y, d, e, p);
    m(m(m(la, nu), f4_sub(mu, f4_one(), p)), f4_sub(la, nu, p))
}

/// The squares `(n4^2, n6^2, n1^2, n2^2)` of the coordinates of the null-point of
/// the Rosenhain form `(la, mu, nu)`:
/// `mu (mu - 1)(la - nu)`, `mu (nu - 1)(la - mu) la`, `mu (nu - 1)(la - 1)(la - nu)`
/// and `mu (la - 1)(mu - nu) nu`, each divided by `th_den4`.
pub open spec fn th_radicands4(la: F4, mu: F4, nu: F4, d: int, e: (int, int), p: int) -> (F4, F4, F4, F4) {
    let m = |x: F4, y: F4| f4_mul(x, y, d, e, p);
    let s = |x: F4, y: F4| f4_sub(x, y, p);
    let one = f4_one();
    let inv = f4_inverse(th_den4(la, mu, nu, d, e, p), d, e, p);
    (
        m(m(m(mu, s(mu, one)), s(la, nu)), inv),
        m(m(m(m(mu, s(nu, one)), s(la, mu)), la), inv),
        m(m(m(m(mu, s(nu, one)), s(la, one)), s(la, nu)), inv),
        m(m(m(m(mu, s(la, one)), s(mu, nu)), nu), inv),
    )
}

/// `from_rosenhain` can build the null-point of `(la, mu, nu)`: the divisions
/// are by nonzero elements, and the radicands have square roots, the first
/// three nonzero.
pub open spec fn th_rosenhain_buildable4(la: F4, mu: F4, nu: F4, d: int, e: (int, int), p: int) -> bool {
    let (r4, r6, r1, r2) = th_radicands4(la, mu, nu, d, e, p);
    &&& la != f4_zero()
    &&& nu != f4_zero()
    &&& mu != f4_one()
    &&& la != nu
    &&& r4 != f4_zero()
    &&& r6 != f4_zero()
    &&& r1 != f4_zero()
    &&& f4_is_square(r4, d, e, p)
    &&& f4_is_square(r6, d, e, p)
    &&& f4_is_square(r1, d, e, p)
    &&& f4_is_square(r2, d, e, p)
}

/// The null-point that `from_rosenhain` builds for `(la, mu, nu)`: the one on
/// the square roots of its radicands that `Fp4::sqrt` gives.
pub open spec fn th_built4(la: F4, mu: F4, nu: F4, d: int, e: (int, int), p: int) -> Seq<F4> {
    let (r4, r6, r1, r2) = th_radicands4(la, mu, nu, d, e, p);
    th_from_roots4(
        la,
        mu,
        nu,
        fp4_sqrt_value(r1, d, e, p),
        fp4_sqrt_value(r2, d, e, p),
        fp4_sqrt_value(r4, d, e, p),
        fp4_sqrt_value(r6, d, e, p),
        d,
        e,
        p,
    )
}

/// The null-point of the Rosenhain form `(la, mu, nu)` built on the square
/// roots `n1, n2, n4, n6` of its radicands.
pub open spec fn th_from_roots4(la: F4, mu: F4, nu: F4, n1: F4, n2: F4, n4: F4, n6: F4, d: int, e: (int, int), p: int) -> Seq<F4> {
    let m = |x: F4, y: F4| f4_mul(x, y, d, e, p);
    let s = |x: F4, y: F4| f4_sub(x, y, p);
    let one = f4_one();
    let n5 = m(n2, f4_inverse(m(nu, n4), d, e, p));
    let n8 = m(n6, f4_inverse(m(la, n4), d, e, p));
    let inv1 = f4_inverse(n1, d, e, p);
    let n3 = m(m(s(nu, one), m(n4, n5)), inv1);
    let n7 = m(m(s(la, one), m(n4, n8)), inv1);
    let n9 = m(s(m(one, n3), m(n1, n2)), f4_inverse(n8, d, e, p));
    seq![one, n1, n2, n3, n4, n5, n6, n7, n8, n9]
}

/// `null` is the squared theta null-point of the Rosenhain form `(la, mu, nu)`
/// for some choice of the square roots of its radicands.
pub open spec fn th_of_rosenhain4(la: F4, mu: F4, nu: F4, null: Seq<F4>, d: int, e: (int, int), p: int) -> bool {
    let (r4, r6, r1, r2) = th_radicands4(la, mu, nu, d, e, p);
    exists|n1: F4, n2: F4, n4: F4, n6: F4|
        f4_reduced(n1, p) && f4_reduced(n2, p) && f4_reduced(n4, p) && f4_reduced(n6, p)
            && f4_mul(n4, n4, d, e, p) == r4 && f4_mul(n6, n6, d, e, p) == r6 && f4_mul(n1, n1, d, e, p) == r1
            && f4_mul(n2, n2, d, e, p) == r2 && null == #[trigger] th_from_roots4(la, mu, nu, n1, n2, n4, n6, d, e, p)
}

/// `x` has a square root in `Fp4`: the norm of its norm passes Euler's criterion.
pub open spec fn f4_is_square(x: F4, d: int, e: (int, int), p: int) -> bool {
    is_euler_square(f2_norm(f4_norm(x, d, e, p), d, p), p)
}

/// Recovering the Rosenhain invariants undoes building the squared theta
/// null-point: for a Rosenhain form `(la, mu, nu)` over the field `Fp4`, every
/// null-point that `from_rosenhain` can build from it can be read back by
/// `to_rosenhain`, and gives back `(la, mu, nu)`.
#[verifier::spinoff_prover]
#[verifier::rlimit(40)]
pub proof fn lemma_rosenhain_round_trip(la: F4, mu: F4, nu: F4, null: Seq<F4>, d: int, e: (int, int), p: int)
    requires
        f4_field_params(d, e, p),
        f4_reduced(la, p),
        f4_reduced(mu, p),
        f4_reduced(nu, p),
        rosenhain_valid(la, mu, nu),
        th_of_rosenhain4(la, mu, nu, null, d, e, p),
    ensures
        f4_invertible(th_rosenhain_den4(null, d, e, p), d, e, p),
        th_rosenhain4(null, d, e, p) == (la, mu, nu),
{
    let m = |x: F4, y: F4| f4_mul(x, y, d, e, p);
    let s = |x: F4, y: F4| f4_sub(x, y, p);
    let one = f4_one();
    let (r4, r6, r1, r2) = th_radicands4(la, mu, nu, d, e, p);
    let (n1, n2, n4, n6) = choose|n1: F4, n2: F4, n4: F4, n6: F4|
        f4_reduced(n1, p) && f4_reduced(n2, p) && f4_reduced(n4, p) && f4_reduced(n6, p)
            && f4_mul(n4, n4, d, e, p) == r4 && f4_mul(n6, n6, d, e, p) == r6 && f4_mul(n1, n1, d, e, p) == r1
            && f4_mul(n2, n2, d, e, p) == r2 && null == #[trigger] th_from_roots4(la, mu, nu, n1, n2, n4, n6, d, e, p);
    assert(f4_reduced(one, p)) by {
        vstd::arithmetic::div_mod::lemma_small_mod(0, p as nat);
    }
    // the factors of the radicands are nonzero
    let x = s(mu, one);
    let y = s(la, nu);
    lemma_f4_sub_nonzero(mu, one, p);
    lemma_f4_sub_nonzero(la, nu, p);
    lemma_f4_sub_nonzero(nu, one, p);
    lemma_f4_sub_nonzero(la, mu, p);
    lemma_f4_sub_nonzero(la, one, p);
    lemma_f4_sub_nonzero(mu, nu, p);
    let ln = m(la, nu);
    let den0 = m(m(ln, x), y);
    lemma_f4_mul_reduced(la, nu, d, e, p);
    lemma_f4_mul_reduced(ln, x, d, e, p);
    lemma_f4_domain(la, nu, d, e, p);
    lemma_f4_domain(ln, x, d, e, p);
    lemma_f4_domain(m(ln, x), y, d, e, p);
    lemma_f4_mul_reduced(m(ln, x), y, d, e, p);
    lemma_f4_nonzero_invertible(den0, d, e, p);
    let inv0 = f4_inverse(den0, d, e, p);
    lemma_f4_inverse_nonzero(den0, d, e, p);
    // r4, r6, r2 are nonzero, hence so are n4, n6, n2
    let n4f = m(m(mu, x), y);
    lemma_f4_mul_reduced(mu, x, d, e, p);
    lemma_f4_domain(mu, x, d, e, p);
    lemma_f4_domain(m(mu, x), y, d, e, p);
    lemma_f4_mul_reduced(m(mu, x), y, d, e, p);
    lemma_f4_domain(n4f, inv0, d, e, p);
    let n6a = m(mu, s(nu, one));
    let n6b = m(n6a, s(la, mu));
    let n6f = m(n6b, la);
    lemma_f4_mul_reduced(mu, s(nu, one), d, e, p);
    lemma_f4_mul_reduced(n6a, s(la, mu), d, e, p);
    lemma_f4_mul_reduced(n6b, la, d, e, p);
    lemma_f4_domain(mu, s(nu, one), d, e, p);
    lemma_f4_domain(n6a, s(la, mu), d, e, p);
    lemma_f4_domain(n6b, la, d, e, p);
    lemma_f4_domain(n6f, inv0, d, e, p);
    let n2a = m(mu, s(la, one));
    let n2b = m(n2a, s(mu, nu));
    let n2f = m(n2b, nu);
    lemma_f4_mul_reduced(mu, s(la, one), d, e, p);
    lemma_f4_mul_reduced(n2a, s(mu, nu), d, e, p);
    lemma_f4_mul_reduced(n2b, nu, d, e, p);
    lemma_f4_domain(mu, s(la, one), d, e, p);
    lemma_f4_domain(n2a, s(mu, nu), d, e, p);
    lemma_f4_domain(n2b, nu, d, e, p);
    lemma_f4_domain(n2f, inv0, d, e, p);
    lemma_f4_root_nonzero(n4, d, e, p);
    lemma_f4_root_nonzero(n6, d, e, p);
    lemma_f4_root_nonzero(n2, d, e, p);
    // the divisors of n5 and n8
    let a = m(nu, n4);
    let b = m(la, n4);
    lemma_f4_mul_reduced(nu, n4, d, e, p);
    lemma_f4_mul_reduced(la, n4, d, e, p);
    lemma_f4_domain(nu, n4, d, e, p);
    lemma_f4_domain(la, n4, d, e, p);
    lemma_f4_nonzero_invertible(a, d, e, p);
    lemma_f4_nonzero_invertible(b, d, e, p);
    lemma_f4_inverse_nonzero(a, d, e, p);
    lemma_f4_inverse_nonzero(b, d, e, p);
    let n5 = m(n2, f4_inverse(a, d, e, p));
    let n8 = m(n6, f4_inverse(b, d, e, p));
    lemma_f4_mul_reduced(n2, f4_inverse(a, d, e, p), d, e, p);
    lemma_f4_mul_reduced(n6, f4_inverse(b, d, e, p), d, e, p);
    lemma_f4_domain(n2, f4_inverse(a, d, e, p), d, e, p);
    lemma_f4_domain(n6, f4_inverse(b, d, e, p), d, e, p);
    assert(null[0] == one && null[2] == n2 && null[4] == n4 && null[5] == n5 && null[6] == n6 && null[8] == n8);
    // the denominator of to_rosenhain
    let den = m(m(n4, n5), n8);
    lemma_f4_mul_reduced(n4, n5, d, e, p);
    lemma_f4_domain(n4, n5, d, e, p);
    lemma_f4_domain(m(n4, n5), n8, d, e, p);
    lemma_f4_mul_reduced(m(n4, n5), n8, d, e, p);
    lemma_f4_nonzero_invertible(den, d, e, p);
    assert(th_rosenhain_den4(null, d, e, p) == den);
    // n5 a == n2 and n8 b == n6
    lemma_f4_div_mul(n2, a, d, e, p);
    lemma_f4_div_mul(n6, b, d, e, p);
    lemma_f4_mul_one(n5, d, e, p);
    lemma_f4_mul_comm(n5, one, d, e, p);
    lemma_f4_mul_one(n2, d, e, p);
    lemma_f4_mul_comm(n2, one, d, e, p);
    // la: (n5 n6) == la den
    lemma_f4_mul_assoc(n4, n5, n8, d, e, p);
    lemma_f4_mul_assoc(la, n4, m(n5, n8), d, e, p);
    lemma_f4_mul_comm(b, m(n5, n8), d, e, p);
    lemma_f4_mul_assoc(n5, n8, b, d, e, p);
    assert(m(n5, n6) == m(la, den));
    lemma_f4_mul_div(la, den, d, e, p);
    // nu: (n2 n8) == nu den
    lemma_f4_mul_assoc(nu, n4, m(n5, n8), d, e, p);
    lemma_f4_mul_assoc(a, n5, n8, d, e, p);
    lemma_f4_mul_comm(a, n5, d, e, p);
    assert(m(n2, n8) == m(nu, den));
    lemma_f4_mul_div(nu, den, d, e, p);
    // (la nu) r4 == mu
    lemma_f4_mul_assoc(mu, x, y, d, e, p);
    lemma_f4_mul_assoc(ln, x, y, d, e, p);
    lemma_f4_mul_left_comm(ln, mu, m(x, y), d, e, p);
    lemma_f4_mul_assoc(ln, n4f, inv0, d, e, p);
    lemma_f4_mul_div(mu, den0, d, e, p);
    assert(m(ln, r4) == mu);
    // ((nu n4) n4)(la n4) == mu n4
    lemma_f4_mul_assoc(nu, n4, n4, d, e, p);
    lemma_f4_mul4(nu, r4, la, n4, d, e, p);
    lemma_f4_mul_assoc(m(nu, la), r4, n4, d, e, p);
    lemma_f4_mul_comm(nu, la, d, e, p);
    let an = m(a, n4);
    assert(m(an, b) == m(mu, n4));
    // mu: (n2 n4) n6 == mu den
    lemma_f4_mul_assoc(n5, a, n4, d, e, p);
    lemma_f4_mul4(n5, an, n8, b, d, e, p);
    lemma_f4_mul_assoc(mu, n4, m(n5, n8), d, e, p);
    lemma_f4_mul_comm(m(mu, n4), m(n5, n8), d, e, p);
    assert(m(m(n2, n4), n6) == m(mu, den));
    lemma_f4_mul_div(mu, den, d, e, p);
}

/// A square root of `x`, which has one.
fn root4<const P: u32, const D1: u32, const D2C0: u32, const D2C1: u32>(x: Fp4<P, D1, D2C0, D2C1>) -> (r: Fp4<P, D1, D2C0, D2C1>)
    requires
        f4_field(P, D1, D2C0, D2C1),
        is_euler_square(f2_norm(f4_norm(x@, dmod(D1, P), d2_of(D2C0, D2C1, P), P as int), dmod(D1, P), P as int), P as int),
    ensures
        f4_mul(r@, r@, dmod(D1, P), d2_of(D2C0, D2C1, P), P as int) == x@,
        r@ == fp4_sqrt_value(x@, dmod(D1, P), d2_of(D2C0, D2C1, P), P as int),
{
    match x.sqrt() {
        Some(y) => y,
        None => {
            proof {
                assert(false);
            }
            x
        },
    }
}

// =============================================================================
// Over Fp4: computation
// =============================================================================

/// The squared theta null-point of the image of the (2,2)-isogeny with square roots `sq`.
fn isogeny_image4<const P: u32, const D1: u32, const D2C0: u32, const D2C1: u32>(
    sq: &[Fp4<P, D1, D2C0, D2C1>; 4],
) -> (r: [Fp4<P, D1, D2C0, D2C1>; 10])
    requires
        valid_modulus(P as int),
    ensures
        f4_views(r) == th_iso_image4(f4_views(*sq), dmod(D1, P), d2_of(D2C0, D2C1, P), P as int),
{
    let ghost p = P as int;
    let ghost d = dmod(D1, P);
    let ghost e = d2_of(D2C0, D2C1, P);
    let ghost s = f4_views(*sq);
    let zero = Fp4::<P, D1, D2C0, D2C1>::zero();
    let mut product_matrix: [Fp4<P, D1, D2C0, D2C1>; 16] = [
        zero, zero, zero, zero, zero, zero, zero, zero, zero, zero, zero, zero, zero, zero, zero, zero,
    ];
    let mut k: usize = 0;
    while k < 4
        invariant
            k <= 4,
            valid_modulus(p),
            p == P as int,
            d == dmod(D1, P),
            e == d2_of(D2C0, D2C1, P),
            s == f4_views(*sq),
            forall|a: int, b: int| 0 <= a < k && 0 <= b < k ==> #[trigger] product_matrix[a * 4 + b]@ == th_pm4(s, a, b, d, e, p),
        decreases 4 - k,
    {
        let mut j: usize = 0;
        while j <= k
            invariant
                k < 4,
                j <= k + 1,
                valid_modulus(p),
                p == P as int,
                d == dmod(D1, P),
                e == d2_of(D2C0, D2C1, P),
                s == f4_views(*sq),
                forall|a: int, b: int| 0 <= a < k && 0 <= b < k ==> #[trigger] product_matrix[a * 4 + b]@ == th_pm4(s, a, b, d, e, p),
                forall|a: int| 0 <= a < j ==> #[trigger] product_matrix[a * 4 + k]@ == th_pm4(s, a, k as int, d, e, p),
                forall|a: int| 0 <= a < j ==> #[trigger] product_matrix[k * 4 + a]@ == th_pm4(s, k as int, a, d, e, p),
            decreases k + 1 - j,
        {
            let value = sq[j].mul(sq[k]);
            product_matrix[j * 4 + k] = value;
            product_matrix[k * 4 + j] = value;
            j = j + 1;
        }
        proof {
            assert forall|a: int, b: int| 0 <= a < k + 1 && 0 <= b < k + 1 implies #[trigger] product_matrix[a * 4 + b]@ == th_pm4(s, a, b, d, e, p) by {
                if a < k && b < k {
                } else if b == k {
                    assert(product_matrix[a * 4 + k]@ == th_pm4(s, a, k as int, d, e, p));
                } else {
                    assert(product_matrix[k * 4 + b]@ == th_pm4(s, k as int, b, d, e, p));
                }
            }
        }
        k = k + 1;
    }
    let mut image_null: [Fp4<P, D1, D2C0, D2C1>; 10] = [zero, zero, zero, zero, zero, zero, zero, zero, zero, zero];
    let mut num: usize = 0;
    while num < 10
        invariant
            num <= 10,
            valid_modulus(p),
            p == P as int,
            d == dmod(D1, P),
            e == d2_of(D2C0, D2C1, P),
            s == f4_views(*sq),
            forall|a: int, b: int| 0 <= a < 4 && 0 <= b < 4 ==> #[trigger] product_matrix[a * 4 + b]@ == th_pm4(s, a, b, d, e, p),
            forall|j: int| 0 <= j < num ==> #[trigger] image_null[j]@ == th_iso_partial4(s, j, 4, d, e, p),
            forall|j: int| num <= j < 10 ==> #[trigger] image_null[j]@ == f4_zero(),
        decreases 10 - num,
    {
        let mut k: usize = 0;
        while k < 4
            invariant
                num < 10,
                k <= 4,
                valid_modulus(p),
                p == P as int,
                d == dmod(D1, P),
                e == d2_of(D2C0, D2C1, P),
                s == f4_views(*sq),
                forall|a: int, b: int| 0 <= a < 4 && 0 <= b < 4 ==> #[trigger] product_matrix[a * 4 + b]@ == th_pm4(s, a, b, d, e, p),
                forall|j: int| 0 <= j < num ==> #[trigger] image_null[j]@ == th_iso_partial4(s, j, 4, d, e, p),
                forall|j: int| num < j < 10 ==> #[trigger] image_null[j]@ == f4_zero(),
                image_null[num as int]@ == th_iso_partial4(s, num as int, k as nat, d, e, p),
            decreases 4 - k,
        {
            let index = ISOGY_INDICES[k][num];
            let v = product_matrix[index * 4 + k];
            let term = if ISOGY_SIGNS[k][num] == 1 {
                v
            } else {
                v.neg()
            };
            image_null[num] = image_null[num].add(term);
            k = k + 1;
        }
        num = num + 1;
    }
    assert(f4_views(image_null) =~= th_iso_image4(s, d, e, p));
    image_null
}


impl<const P: u32, const D1: u32, const D2C0: u32, const D2C1: u32> Theta<Fp4<P, D1, D2C0, D2C1>> {
    /// Transform a squared theta null-point by the `m`-th symplectic matrix.
    #[verifier::spinoff_prover]
    pub fn transform_nullpoint(&self, m: usize) -> (r: Self)
        requires
            m < 15,
            f4_field(P, D1, D2C0, D2C1),
        ensures
            exists|i: F4|
                f4_is_imag(i, dmod(D1, P), d2_of(D2C0, D2C1, P), P as int)
                    && #[trigger] th_transform4(f4_views(self.null), m as int, i, dmod(D1, P), d2_of(D2C0, D2C1, P), P as int)
                    == f4_views(r.null),
            f4_views(r.null) == th_transform4(
                f4_views(self.null),
                m as int,
                f4_imag_value(dmod(D1, P), d2_of(D2C0, D2C1, P), P as int),
                dmod(D1, P),
                d2_of(D2C0, D2C1, P),
                P as int,
            ),
    {
        let ghost p = P as int;
        let ghost d = dmod(D1, P);
        let ghost e = d2_of(D2C0, D2C1, P);
        let ghost src = f4_views(self.null);
        let i = Fp4::<P, D1, D2C0, D2C1>::imaginary_unit();
        let zero = Fp4::<P, D1, D2C0, D2C1>::zero();
        let mut trans: [Fp4<P, D1, D2C0, D2C1>; 10] = [zero, zero, zero, zero, zero, zero, zero, zero, zero, zero];
        assert(f4_views(trans) =~= th_moved4(src, m as int, i@, 0, d, e, p));
        let mut num: usize = 0;
        while num < 10
            invariant
                m < 15,
                num <= 10,
                f4_field(P, D1, D2C0, D2C1),
                p == P as int,
                d == dmod(D1, P),
                e == d2_of(D2C0, D2C1, P),
                src == f4_views(self.null),
                f4_views(trans) == th_moved4(src, m as int, i@, num as nat, d, e, p),
            decreases 10 - num,
        {
            let index = TRANS_INDICES[m][num];
            let sign = TRANS_SIGNS[m][num];
            let x = self.null[num];
            let v = if sign == 0 {
                x
            } else if sign == 1 {
                i.mul(x)
            } else if sign == 2 {
                x.neg()
            } else {
                i.neg().mul(x)
            };
            trans[index] = v;
            assert(f4_views(trans) =~= th_moved4(src, m as int, i@, (num + 1) as nat, d, e, p));
            num = num + 1;
        }
        assert(th_transform4(src, m as int, i@, d, e, p) == f4_views(trans));
        Theta { null: trans }
    }

    /// Compute the squared theta null-point of the `m`-th (2,2)-isogenous surface.
    #[verifier::spinoff_prover]
    #[verifier::rlimit(40)]
    pub fn compute_twoisogeny(&self, m: usize) -> (r: Self)
        requires
            m < 15,
            f4_field(P, D1, D2C0, D2C1),
            th_library_defined4(f4_views(self.null), m as int, dmod(D1, P), d2_of(D2C0, D2C1, P), P as int),
        ensures
            th_isogenous4(f4_views(self.null), m as int, f4_views(r.null), dmod(D1, P), d2_of(D2C0, D2C1, P), P as int),
            f4_views(r.null) == th_twoisogeny4(f4_views(self.null), m as int, dmod(D1, P), d2_of(D2C0, D2C1, P), P as int),
    {
        let ghost p = P as int;
        let ghost d = dmod(D1, P);
        let ghost e = d2_of(D2C0, D2C1, P);
        let ghost src = f4_views(self.null);
        let t = self.transform_nullpoint(m).null;
        let ghost i = choose|i: F4| f4_is_imag(i, d, e, p) && #[trigger] th_transform4(src, m as int, i, d, e, p) == f4_views(t);
        proof {
            assert(th_transform4(src, m as int, f4_imag_value(d, e, p), d, e, p) == f4_views(t));
            assert(th_iso_defined4(th_transform4(src, m as int, i, d, e, p), d, e, p));
            assert(f4_views(t)[1] == t[1]@ && f4_views(t)[2] == t[2]@ && f4_views(t)[3] == t[3]@ && f4_views(t)[0] == t[0]@);
            assert(is_euler_square(f2_norm(f4_norm(f4_mul(t[0]@, t[1]@, d, e, p), d, e, p), d, p), p));
            assert(is_euler_square(f2_norm(f4_norm(f4_mul(t[0]@, t[2]@, d, e, p), d, e, p), d, p), p));
            assert(is_euler_square(f2_norm(f4_norm(f4_mul(t[0]@, t[3]@, d, e, p), d, e, p), d, p), p));
        }
        let sq: [Fp4<P, D1, D2C0, D2C1>; 4] = [
            t[0],
            root4(t[0].mul(t[1])),
            root4(t[0].mul(t[2])),
            root4(t[0].mul(t[3])),
        ];
        let ghost s = f4_views(sq);
        proof {
            assert(th_iso_roots4(th_transform4(src, m as int, i, d, e, p), s, d, e, p));
            let tv = th_transform4(src, m as int, f4_imag_value(d, e, p), d, e, p);
            assert(tv == f4_views(t));
            assert(s =~= th_library_roots4(tv, d, e, p));
        }
        let image_null = isogeny_image4(&sq);
        Theta { null: image_null }
    }

    /// The images of the first eight (2,2)-isogenies, the good extensions, when
    /// `is_good`; of all fifteen otherwise.
    pub fn compute_all_twoisogenies(&self, is_good: bool) -> (r: Vec<Self>)
        requires
            f4_field(P, D1, D2C0, D2C1),
            forall|m: int|
                0 <= m < th_isogeny_count(is_good) ==> #[trigger] th_library_defined4(
                    f4_views(self.null),
                    m,
                    dmod(D1, P),
                    d2_of(D2C0, D2C1, P),
                    P as int,
                ),
        ensures
            r.len() == th_isogeny_count(is_good),
            forall|m: int|
                0 <= m < r.len() ==> th_isogenous4(
                    f4_views(self.null),
                    m,
                    #[trigger] f4_views(r[m].null),
                    dmod(D1, P),
                    d2_of(D2C0, D2C1, P),
                    P as int,
                ),
            forall|m: int|
                0 <= m < r.len() ==> #[trigger] f4_views(r[m].null) == th_twoisogeny4(
                    f4_views(self.null),
                    m,
                    dmod(D1, P),
                    d2_of(D2C0, D2C1, P),
                    P as int,
                ),
    {
        let count: usize = if is_good {
            8
        } else {
            15
        };
        let mut images: Vec<Self> = Vec::new();
        let mut m: usize = 0;
        while m < count
            invariant
                count == th_isogeny_count(is_good),
                m <= count,
                images.len() == m,
                f4_field(P, D1, D2C0, D2C1),
                forall|k: int|
                    0 <= k < count ==> #[trigger] th_library_defined4(
                        f4_views(self.null),
                        k,
                        dmod(D1, P),
                        d2_of(D2C0, D2C1, P),
                        P as int,
                    ),
                forall|k: int|
                    0 <= k < m ==> th_isogenous4(
                        f4_views(self.null),
                        k,
                        #[trigger] f4_views(images[k].null),
                        dmod(D1, P),
                        d2_of(D2C0, D2C1, P),
                        P as int,
                    ),
                forall|k: int|
                    0 <= k < m ==> #[trigger] f4_views(images[k].null) == th_twoisogeny4(
                        f4_views(self.null),
                        k,
                        dmod(D1, P),
                        d2_of(D2C0, D2C1, P),
                        P as int,
                    ),
            decreases count - m,
        {
            assert(th_library_defined4(f4_views(self.null), m as int, dmod(D1, P), d2_of(D2C0, D2C1, P), P as int));
            let image = self.compute_twoisogeny(m);
            images.push(image);
            m = m + 1;
        }
        images
    }

    /// Whether the `m`-th (2,2)-isogeny can be computed: the square roots it
    /// takes exist.
    pub fn twoisogeny_defined(&self, m: usize) -> (r: bool)
        requires
            m < 15,
            f4_field(P, D1, D2C0, D2C1),
        ensures
            r == th_library_defined4(f4_views(self.null), m as int, dmod(D1, P), d2_of(D2C0, D2C1, P), P as int),
    {
        let ghost d = dmod(D1, P);
        let ghost e = d2_of(D2C0, D2C1, P);
        let ghost p = P as int;
        let t = self.transform_nullpoint(m).null;
        let ghost tv = f4_views(t);
        proof {
            assert(tv[0] == t[0]@ && tv[1] == t[1]@ && tv[2] == t[2]@ && tv[3] == t[3]@);
        }
        let mut k: usize = 1;
        while k < 4
            invariant
                1 <= k <= 4,
                f4_field(P, D1, D2C0, D2C1),
                d == dmod(D1, P),
                e == d2_of(D2C0, D2C1, P),
                p == P as int,
                tv == f4_views(t),
                tv == th_transform4(f4_views(self.null), m as int, f4_imag_value(d, e, p), d, e, p),
                forall|j: int| 1 <= j < k ==> is_euler_square(
                    f2_norm(f4_norm(#[trigger] f4_mul(tv[0], tv[j], d, e, p), d, e, p), d, p),
                    p,
                ),
            decreases 4 - k,
        {
            let x = t[0].mul(t[k]);
            proof {
                assert(tv[k as int] == t[k as int]@);
            }
            match x.sqrt() {
                Some(_) => {},
                None => {
                    proof {
                        assert(!is_euler_square(f2_norm(f4_norm(f4_mul(tv[0], tv[k as int], d, e, p), d, e, p), d, p), p));
                    }
                    return false;
                },
            }
            k = k + 1;
        }
        true
    }

    /// The radicands whose square roots `from_rosenhain` takes.
    fn rosenhain_radicands(ram: &Rosenhain<Fp4<P, D1, D2C0, D2C1>>) -> (r: (Fp4<P, D1, D2C0, D2C1>, Fp4<P, D1, D2C0, D2C1>, Fp4<P, D1, D2C0, D2C1>, Fp4<P, D1, D2C0, D2C1>))
        requires
            f4_field(P, D1, D2C0, D2C1),
            ram.la@ != f4_zero(),
            ram.nu@ != f4_zero(),
            ram.mu@ != f4_one(),
            ram.la@ != ram.nu@,
        ensures
            (r.0@, r.1@, r.2@, r.3@) == th_radicands4(ram.la@, ram.mu@, ram.nu@, dmod(D1, P), d2_of(D2C0, D2C1, P), P as int),
    {
        let ghost p = P as int;
        let ghost d = dmod(D1, P);
        let ghost e = d2_of(D2C0, D2C1, P);
        let la = ram.la;
        let mu = ram.mu;
        let nu = ram.nu;
        let one = Fp4::<P, D1, D2C0, D2C1>::one();
        la.reduced();
        mu.reduced();
        nu.reduced();
        one.reduced();
        let d2 = Fp4::<P, D1, D2C0, D2C1>::d2_fp2();
        d2.reduced();
        let la_nu = la.mul(nu);
        let mu_1 = mu.sub(one);
        let la_m_nu = la.sub(nu);
        let den = la_nu.mul(mu_1).mul(la_m_nu);
        proof {
            crate::fp4::lemma_f4_mul_reduced(la@, nu@, d, e, p);
            crate::fp4::lemma_f4_mul_reduced(la_nu@, mu_1@, d, e, p);
            lemma_f4_sub_nonzero(mu@, f4_one(), p);
            lemma_f4_sub_nonzero(la@, nu@, p);
            lemma_f4_domain(la@, nu@, d, e, p);
            lemma_f4_domain(la_nu@, mu_1@, d, e, p);
            lemma_f4_domain(f4_mul(la_nu@, mu_1@, d, e, p), la_m_nu@, d, e, p);
            lemma_f4_nonzero_invertible(den@, d, e, p);
        }
        let inv_prod = den.inv();
        let r4 = mu.mul(mu.sub(one)).mul(la.sub(nu)).mul(inv_prod);
        let r6 = mu.mul(nu.sub(one)).mul(la.sub(mu)).mul(la).mul(inv_prod);
        let r1 = mu.mul(nu.sub(one)).mul(la.sub(one)).mul(la.sub(nu)).mul(inv_prod);
        let r2 = mu.mul(la.sub(one)).mul(mu.sub(nu)).mul(nu).mul(inv_prod);
        (r4, r6, r1, r2)
    }

    /// The null-point `from_rosenhain` builds, or `None` where it cannot be
    /// built: a division by zero, or a radicand that is zero or has no square
    /// root.
    #[verifier::spinoff_prover]
    #[verifier::rlimit(40)]
    pub fn try_from_rosenhain(ram: &Rosenhain<Fp4<P, D1, D2C0, D2C1>>) -> (r: Option<Self>)
        requires
            f4_field(P, D1, D2C0, D2C1),
        ensures
            r is Some <==> th_rosenhain_buildable4(ram.la@, ram.mu@, ram.nu@, dmod(D1, P), d2_of(D2C0, D2C1, P), P as int),
            r matches Some(t) ==> f4_views(t.null) == th_built4(ram.la@, ram.mu@, ram.nu@, dmod(D1, P), d2_of(D2C0, D2C1, P), P as int),
    {
        let one = Fp4::<P, D1, D2C0, D2C1>::one();
        if ram.la.is_zero() || ram.nu.is_zero() || ram.mu.same_as(&one) || ram.la.same_as(&ram.nu) {
            return None;
        }
        let (r4, r6, r1, r2) = Self::rosenhain_radicands(ram);
        if r4.is_zero() || r6.is_zero() || r1.is_zero() {
            return None;
        }
        if r4.sqrt().is_none() || r6.sqrt().is_none() || r1.sqrt().is_none() || r2.sqrt().is_none() {
            return None;
        }
        Some(Self::from_rosenhain(ram))
    }

    /// Recover Rosenhain invariants from a squared theta null-point.
    pub fn to_rosenhain(&self) -> (r: Rosenhain<Fp4<P, D1, D2C0, D2C1>>)
        requires
            f4_invertible(th_rosenhain_den4(f4_views(self.null), dmod(D1, P), d2_of(D2C0, D2C1, P), P as int),
                dmod(D1, P), d2_of(D2C0, D2C1, P), P as int),
        ensures
            (r.la@, r.mu@, r.nu@) == th_rosenhain4(f4_views(self.null), dmod(D1, P), d2_of(D2C0, D2C1, P), P as int),
    {
        let null = &self.null;
        let inv_prod = null[4].mul(null[5]).mul(null[8]).inv();
        let la = null[0].mul(null[5]).mul(null[6]).mul(inv_prod);
        let mu = null[2].mul(null[4]).mul(null[6]).mul(inv_prod);
        let nu = null[0].mul(null[2]).mul(null[8]).mul(inv_prod);
        Rosenhain::new(la, mu, nu)
    }

    /// Construct the theta structure from Rosenhain invariants.
    #[verifier::spinoff_prover]
    #[verifier::rlimit(40)]
    pub fn from_rosenhain(ram: &Rosenhain<Fp4<P, D1, D2C0, D2C1>>) -> (r: Self)
        requires
            f4_field(P, D1, D2C0, D2C1),
            ram.la@ != f4_zero(),
            ram.nu@ != f4_zero(),
            ram.mu@ != f4_one(),
            ram.la@ != ram.nu@,
            th_radicands4(ram.la@, ram.mu@, ram.nu@, dmod(D1, P), d2_of(D2C0, D2C1, P), P as int).0 != f4_zero(),
            th_radicands4(ram.la@, ram.mu@, ram.nu@, dmod(D1, P), d2_of(D2C0, D2C1, P), P as int).1 != f4_zero(),
            th_radicands4(ram.la@, ram.mu@, ram.nu@, dmod(D1, P), d2_of(D2C0, D2C1, P), P as int).2 != f4_zero(),
            f4_is_square(th_radicands4(ram.la@, ram.mu@, ram.nu@, dmod(D1, P), d2_of(D2C0, D2C1, P), P as int).0,
                dmod(D1, P), d2_of(D2C0, D2C1, P), P as int),
            f4_is_square(th_radicands4(ram.la@, ram.mu@, ram.nu@, dmod(D1, P), d2_of(D2C0, D2C1, P), P as int).1,
                dmod(D1, P), d2_of(D2C0, D2C1, P), P as int),
            f4_is_square(th_radicands4(ram.la@, ram.mu@, ram.nu@, dmod(D1, P), d2_of(D2C0, D2C1, P), P as int).2,
                dmod(D1, P), d2_of(D2C0, D2C1, P), P as int),
            f4_is_square(th_radicands4(ram.la@, ram.mu@, ram.nu@, dmod(D1, P), d2_of(D2C0, D2C1, P), P as int).3,
                dmod(D1, P), d2_of(D2C0, D2C1, P), P as int),
        ensures
            th_of_rosenhain4(ram.la@, ram.mu@, ram.nu@, f4_views(r.null), dmod(D1, P), d2_of(D2C0, D2C1, P), P as int),
            ({
                let (la, mu, nu) = (ram.la@, ram.mu@, ram.nu@);
                let (d, e, p) = (dmod(D1, P), d2_of(D2C0, D2C1, P), P as int);
                let (r4, r6, r1, r2) = th_radicands4(la, mu, nu, d, e, p);
                f4_views(r.null) == th_from_roots4(
                    la,
                    mu,
                    nu,
                    fp4_sqrt_value(r1, d, e, p),
                    fp4_sqrt_value(r2, d, e, p),
                    fp4_sqrt_value(r4, d, e, p),
                    fp4_sqrt_value(r6, d, e, p),
                    d,
                    e,
                    p,
                )
            }),
    {
        let ghost p = P as int;
        let ghost d = dmod(D1, P);
        let ghost e = d2_of(D2C0, D2C1, P);
        let la = ram.la;
        let mu = ram.mu;
        let nu = ram.nu;
        let one = Fp4::<P, D1, D2C0, D2C1>::one();
        la.reduced();
        mu.reduced();
        nu.reduced();
        one.reduced();
        let d2 = Fp4::<P, D1, D2C0, D2C1>::d2_fp2();
        d2.reduced();
        let la_nu = la.mul(nu);
        let mu_1 = mu.sub(one);
        let la_m_nu = la.sub(nu);
        let den = la_nu.mul(mu_1).mul(la_m_nu);
        proof {
            crate::fp4::lemma_f4_mul_reduced(la@, nu@, d, e, p);
            crate::fp4::lemma_f4_mul_reduced(la_nu@, mu_1@, d, e, p);
            lemma_f4_sub_nonzero(mu@, f4_one(), p);
            lemma_f4_sub_nonzero(la@, nu@, p);
            lemma_f4_domain(la@, nu@, d, e, p);
            lemma_f4_domain(la_nu@, mu_1@, d, e, p);
            lemma_f4_domain(f4_mul(la_nu@, mu_1@, d, e, p), la_m_nu@, d, e, p);
            lemma_f4_nonzero_invertible(den@, d, e, p);
        }
        let inv_prod = den.inv();
        let n4 = root4(mu.mul(mu.sub(one)).mul(la.sub(nu)).mul(inv_prod));
        let n6 = root4(mu.mul(nu.sub(one)).mul(la.sub(mu)).mul(la).mul(inv_prod));
        let n1 = root4(mu.mul(nu.sub(one)).mul(la.sub(one)).mul(la.sub(nu)).mul(inv_prod));
        let n2 = root4(mu.mul(la.sub(one)).mul(mu.sub(nu)).mul(nu).mul(inv_prod));
        n4.reduced();
        n6.reduced();
        n1.reduced();
        n2.reduced();
        let nu_n4 = nu.mul(n4);
        let la_n4 = la.mul(n4);
        proof {
            lemma_f4_root_nonzero(n4@, d, e, p);
            lemma_f4_root_nonzero(n6@, d, e, p);
            lemma_f4_root_nonzero(n1@, d, e, p);
            lemma_f4_domain(nu@, n4@, d, e, p);
            lemma_f4_domain(la@, n4@, d, e, p);
            crate::fp4::lemma_f4_mul_reduced(nu@, n4@, d, e, p);
            crate::fp4::lemma_f4_mul_reduced(la@, n4@, d, e, p);
            lemma_f4_nonzero_invertible(nu_n4@, d, e, p);
            lemma_f4_nonzero_invertible(la_n4@, d, e, p);
            lemma_f4_nonzero_invertible(n1@, d, e, p);
        }
        let n5 = n2.div(nu_n4);
        let n8 = n6.div(la_n4);
        n8.reduced();
        proof {
            lemma_f4_inverse_nonzero(la_n4@, d, e, p);
            lemma_f4_domain(n6@, f4_inverse(la_n4@, d, e, p), d, e, p);
            lemma_f4_nonzero_invertible(n8@, d, e, p);
        }
        let inv_null1 = n1.inv();
        let n3 = nu.sub(one).mul(n4.mul(n5)).mul(inv_null1);
        let n7 = la.sub(one).mul(n4.mul(n8)).mul(inv_null1);
        let n9 = one.mul(n3).sub(n1.mul(n2)).div(n8);
        let null: [Fp4<P, D1, D2C0, D2C1>; 10] = [one, n1, n2, n3, n4, n5, n6, n7, n8, n9];
        proof {
            assert(f4_views(null) =~= th_from_roots4(la@, mu@, nu@, n1@, n2@, n4@, n6@, d, e, p));
        }
        Self { null }
    }
}

// =============================================================================
// Over Fp2: specification
// =============================================================================

/// The elements of an array of `Fp2`, by their values.
pub open spec fn f2_views<const P: u32, const D: u32, const N: usize>(a: [Fp2<P, D>; N]) -> Seq<(int, int)> {
    Seq::new(N as nat, |i: int| a[i]@)
}

/// `x` multiplied by the unit coded by `sign`, as in `th_signed4`.
pub open spec fn th_signed2(sign: usize, i: (int, int), x: (int, int), d: int, p: int) -> (int, int) {
    if sign == 0 {
        x
    } else if sign == 1 {
        f2_mul(i, x, d, p)
    } else if sign == 2 {
        f2_neg(x, p)
    } else {
        f2_mul(f2_neg(i, p), x, d, p)
    }
}

/// The first `n` coordinates of `null` moved and multiplied by the row `m` of
/// `TRANS_INDICES` and `TRANS_SIGNS` (when `split` is false) or of
/// `SPLIT_INDICES` and `SPLIT_SIGNS` (when it is true), onto zero.
pub open spec fn th_moved2(null: Seq<(int, int)>, split: bool, m: int, i: (int, int), n: nat, d: int, p: int) -> Seq<(int, int)>
    decreases n,
{
    if n == 0 {
        Seq::new(10, |j: int| (0int, 0int))
    } else {
        let k = n - 1;
        let index = if split { SPLIT_INDICES[m][k] } else { TRANS_INDICES[m][k] };
        let sign = if split { SPLIT_SIGNS[m][k] } else { TRANS_SIGNS[m][k] };
        th_moved2(null, split, m, i, (n - 1) as nat, d, p).update(index as int, th_signed2(sign, i, null[k], d, p))
    }
}

/// The null-point `null` transformed by the `m`-th symplectic matrix, with `i`
/// the square root of -1.
pub open spec fn th_transform2(null: Seq<(int, int)>, m: int, i: (int, int), d: int, p: int) -> Seq<(int, int)> {
    th_moved2(null, false, m, i, 10, d, p)
}

/// The index of the first zero coordinate of `null` from `k` on, or 10 when
/// there is none.
pub open spec fn th_first_zero2(null: Seq<(int, int)>, k: nat) -> nat
    decreases 10 - k,
{
    if k >= 10 {
        10
    } else if null[k as int] == (0int, 0int) {
        k
    } else {
        th_first_zero2(null, k + 1)
    }
}

/// The first zero from `k` on lies between `k` and 10.
pub proof fn lemma_first_zero_bound(null: Seq<(int, int)>, k: nat)
    ensures
        k <= 10 ==> k <= th_first_zero2(null, k) <= 10,
        th_first_zero2(null, k) < 10 ==> null[th_first_zero2(null, k) as int] == (0int, 0int),
    decreases 10 - k,
{
    if k < 10 && null[k as int] != (0int, 0int) {
        lemma_first_zero_bound(null, k + 1);
    }
}

/// `s` are square roots for a (2,2)-isogeny from the transformed null-point
/// `t`: when `t0 != 0`, `s0 = t0` and `s_k^2 = t0 t_k` for `k = 1, 2, 3`; when
/// `t0 == 0`, `s0 = 0`, `s1 = t1` and `s_k^2 = t1 t_k` for `k = 2, 3`.
pub open spec fn th_iso_roots2(t: Seq<(int, int)>, s: Seq<(int, int)>, d: int, p: int) -> bool {
    &&& s.len() == 4
    &&& if t[0] == (0int, 0int) {
        &&& s[0] == (0int, 0int)
        &&& s[1] == t[1]
        &&& forall|k: int| 2 <= k < 4 ==> #[trigger] f2_mul(s[k], s[k], d, p) == f2_mul(t[1], t[k], d, p)
    } else {
        &&& s[0] == t[0]
        &&& forall|k: int| 1 <= k < 4 ==> #[trigger] f2_mul(s[k], s[k], d, p) == f2_mul(t[0], t[k], d, p)
    }
}

/// The square roots that a (2,2)-isogeny from `t` needs exist.
pub open spec fn th_iso_defined2(t: Seq<(int, int)>, d: int, p: int) -> bool {
    if t[0] == (0int, 0int) {
        forall|k: int| 2 <= k < 4 ==> f2_is_square(#[trigger] f2_mul(t[1], t[k], d, p), d, p)
    } else {
        forall|k: int| 1 <= k < 4 ==> f2_is_square(#[trigger] f2_mul(t[0], t[k], d, p), d, p)
    }
}

/// The product `s_a s_b`, the factor of smaller index first.
pub open spec fn th_pm2(s: Seq<(int, int)>, a: int, b: int, d: int, p: int) -> (int, int) {
    if a <= b {
        f2_mul(s[a], s[b], d, p)
    } else {
        f2_mul(s[b], s[a], d, p)
    }
}

/// The `k`-th signed product that the coordinate `num` of the image sums.
pub open spec fn th_iso_term2(s: Seq<(int, int)>, k: int, num: int, d: int, p: int) -> (int, int) {
    let v = th_pm2(s, ISOGY_INDICES[k][num] as int, k, d, p);
    if ISOGY_SIGNS[k][num] == 1 {
        v
    } else {
        f2_neg(v, p)
    }
}

/// The sum of the first `k` signed products of the coordinate `num`.
pub open spec fn th_iso_partial2(s: Seq<(int, int)>, num: int, k: nat, d: int, p: int) -> (int, int)
    decreases k,
{
    if k == 0 {
        (0int, 0int)
    } else {
        f2_add(th_iso_partial2(s, num, (k - 1) as nat, d, p), th_iso_term2(s, k - 1, num, d, p), p)
    }
}

/// The squared theta null-point of the image of the (2,2)-isogeny with square roots `s`.
pub open spec fn th_iso_image2(s: Seq<(int, int)>, d: int, p: int) -> Seq<(int, int)> {
    Seq::new(10, |num: int| th_iso_partial2(s, num, 4, d, p))
}

/// `img` is the image of `null` under the `m`-th (2,2)-isogeny, for a square
/// root `i` of -1 and a choice `s` of the square roots.
pub open spec fn th_isogenous2(null: Seq<(int, int)>, m: int, img: Seq<(int, int)>, d: int, p: int) -> bool {
    exists|i: (int, int), s: Seq<(int, int)>|
        f2_is_imag(i, d, p) && #[trigger] th_iso_roots2(th_transform2(null, m, i, d, p), s, d, p)
            && img == th_iso_image2(s, d, p)
}

/// The square roots that the library takes for the isogeny from the
/// transformed null-point `t`: the roots `Fp2::sqrt` gives of `t0 t_k`, or,
/// when `t0 == 0`, of `t1 t_k`.
pub open spec fn th_library_roots2(t: Seq<(int, int)>, d: int, p: int) -> Seq<(int, int)> {
    if t[0] == (0int, 0int) {
        seq![
            (0int, 0int),
            t[1],
            fp2_sqrt_value(f2_mul(t[1], t[2], d, p), d, p),
            fp2_sqrt_value(f2_mul(t[1], t[3], d, p), d, p),
        ]
    } else {
        seq![
            t[0],
            fp2_sqrt_value(f2_mul(t[0], t[1], d, p), d, p),
            fp2_sqrt_value(f2_mul(t[0], t[2], d, p), d, p),
            fp2_sqrt_value(f2_mul(t[0], t[3], d, p), d, p),
        ]
    }
}

/// The null-point of the `m`-th (2,2)-isogenous surface as the library
/// computes it over `Fp2`: `null` transformed with the square root of -1 that
/// `Fp2::imaginary_unit` gives, then the image for the roots that `Fp2::sqrt`
/// gives.
pub open spec fn th_twoisogeny2(null: Seq<(int, int)>, m: int, d: int, p: int) -> Seq<(int, int)> {
    th_iso_image2(th_library_roots2(th_transform2(null, m, f2_imag_value(d, p), d, p), d, p), d, p)
}

/// The images that `compute_all_twoisogenies` lists among the first `n`
/// isogenies: all of them, or with `only_jacobians` those without a zero
/// coordinate, in order.
pub open spec fn th_library_images2(null: Seq<(int, int)>, n: nat, only_jacobians: bool, d: int, p: int) -> Seq<Seq<(int, int)>>
    decreases n,
{
    if n == 0 {
        Seq::empty()
    } else {
        let prev = th_library_images2(null, (n - 1) as nat, only_jacobians, d, p);
        let img = th_twoisogeny2(null, n - 1, d, p);
        if only_jacobians && th_first_zero2(img, 0) < 10 {
            prev
        } else {
            prev.push(img)
        }
    }
}

/// The null-point `generate_ssp_theta` gives for the Legendre curve `la`: the
/// first Jacobian among the (2,2)-isogenous surfaces of the square of the
/// curve, built on the roots `Fp2::sqrt` gives of `la` and `1 - la`.
pub open spec fn th_library_ssp_theta2(la: (int, int), d: int, p: int) -> Seq<(int, int)> {
    let null = th_product_null2(
        la,
        fp2_sqrt_value(la, d, p),
        fp2_sqrt_value(f2_sub((1int, 0int), la, p), d, p),
        d,
        p,
    );
    th_library_images2(null, 15, true, d, p)[0]
}

/// A null-point moved by a row of the transformation tables has ten
/// coordinates.
proof fn lemma_moved2_len(null: Seq<(int, int)>, m: int, i: (int, int), n: nat, d: int, p: int)
    requires
        0 <= m < 15,
        n <= 10,
    ensures
        th_moved2(null, false, m, i, n, d, p).len() == 10,
    decreases n,
{
    if n > 0 {
        lemma_moved2_len(null, m, i, (n - 1) as nat, d, p);
        assert(TRANS_INDICES[m][n - 1] < 10);
    }
}

/// The first `n` coordinates moved by the identity transformation `0` are
/// those of `null`; the others are still zero.
proof fn lemma_moved2_identity(null: Seq<(int, int)>, i: (int, int), n: nat, d: int, p: int)
    requires
        n <= 10,
    ensures
        th_moved2(null, false, 0, i, n, d, p).len() == 10,
        forall|j: int| 0 <= j < 10 ==> #[trigger] th_moved2(null, false, 0, i, n, d, p)[j] == (if j < n { null[j] } else { (0int, 0int) }),
    decreases n,
{
    if n > 0 {
        lemma_moved2_identity(null, i, (n - 1) as nat, d, p);
        assert(TRANS_INDICES[0][n - 1] == n - 1);
        assert(TRANS_SIGNS[0][n - 1] == 0);
    }
}

/// The `m`-th (2,2)-isogeny of a null-point over `Fp2` is the 0-th isogeny of
/// its `m`-th transform: the transformation 0 is the identity.
pub proof fn lemma_twoisogeny_through_transform2(null: Seq<(int, int)>, m: int, d: int, p: int)
    requires
        0 <= m < 15,
    ensures
        th_twoisogeny2(null, m, d, p) == th_twoisogeny2(th_transform2(null, m, f2_imag_value(d, p), d, p), 0, d, p),
{
    let i = f2_imag_value(d, p);
    let t = th_transform2(null, m, i, d, p);
    lemma_moved2_len(null, m, i, 10, d, p);
    lemma_moved2_identity(t, i, 10, d, p);
    assert(th_transform2(t, 0, i, d, p) =~= t);
}

/// The `m`-th (2,2)-isogeny of `null` can be computed, whichever square root
/// of -1 transforms it.
pub open spec fn th_isogeny_defined2(null: Seq<(int, int)>, m: int, d: int, p: int) -> bool {
    forall|i: (int, int)| f2_is_imag(i, d, p) ==> th_iso_defined2(#[trigger] th_transform2(null, m, i, d, p), d, p)
}

/// The Legendre parameters `t0^2 / (t0^2 - t1^2)` and `t0^2 / (t0^2 - t2^2)`
/// of the two elliptic curves of a split null-point moved into place as `t`.
pub open spec fn th_legendre_pair2(t: Seq<(int, int)>, d: int, p: int) -> ((int, int), (int, int)) {
    let sq = |x: (int, int)| f2_mul(x, x, d, p);
    (
        f2_mul(sq(t[0]), f2_inverse(f2_sub(sq(t[0]), sq(t[1]), p), d, p), d, p),
        f2_mul(sq(t[0]), f2_inverse(f2_sub(sq(t[0]), sq(t[2]), p), d, p), d, p),
    )
}

/// The divisions that recover the Legendre parameters of the split null-point
/// `null` are by nonzero elements, whichever square root of -1 moves it.
pub open spec fn th_legendre_defined2(null: Seq<(int, int)>, d: int, p: int) -> bool {
    let c = th_first_zero2(null, 0) as int;
    forall|i: (int, int)|
        f2_is_imag(i, d, p) ==> {
            let t = #[trigger] th_moved2(null, true, c, i, 10, d, p);
            let sq = |x: (int, int)| f2_mul(x, x, d, p);
            f2_sub(sq(t[0]), sq(t[1]), p) != (0int, 0int) && f2_sub(sq(t[0]), sq(t[2]), p) != (0int, 0int)
        }
}

/// `imgs` are the images of `null` under the (2,2)-isogenies `ms`, in
/// increasing order, among the first `count`; with `only_jacobians`, exactly
/// the isogenies whose image splits (has a zero coordinate) are left out, and
/// otherwise none is.
pub open spec fn th_images2(
    null: Seq<(int, int)>,
    count: int,
    only_jacobians: bool,
    imgs: Seq<Seq<(int, int)>>,
    ms: Seq<int>,
    d: int,
    p: int,
) -> bool {
    &&& ms.len() == imgs.len()
    &&& forall|j: int| 0 <= j < ms.len() ==> 0 <= #[trigger] ms[j] < count
    &&& forall|j1: int, j2: int| 0 <= j1 < j2 < ms.len() ==> ms[j1] < ms[j2]
    &&& forall|j: int| 0 <= j < ms.len() ==> th_isogenous2(null, ms[j], #[trigger] imgs[j], d, p)
    &&& forall|j: int| 0 <= j < ms.len() ==> (only_jacobians ==> th_first_zero2(#[trigger] imgs[j], 0) == 10)
    &&& forall|m: int|
        0 <= m < count && !ms.contains(m) ==> only_jacobians && exists|img: Seq<(int, int)>|
            #[trigger] th_isogenous2(null, m, img, d, p) && th_first_zero2(img, 0) < 10
}

/// The null-points of a sequence of theta structures over `Fp2`, by their values.
pub open spec fn th_null_views2<const P: u32, const D: u32>(v: Seq<Theta<Fp2<P, D>>>) -> Seq<Seq<(int, int)>> {
    v.map_values(|x: Theta<Fp2<P, D>>| f2_views(x.null))
}

/// `s1` and `s4` are square roots of `la` and `1 - la`.
pub open spec fn th_product_roots2(la: (int, int), s1: (int, int), s4: (int, int), d: int, p: int) -> bool {
    &&& f2_reduced(s1, p)
    &&& f2_reduced(s4, p)
    &&& f2_mul(s1, s1, d, p) == la
    &&& f2_mul(s4, s4, d, p) == f2_sub((1int, 0int), la, p)
}

/// The squared theta null-point of the square of the Legendre curve `la`,
/// built on the square roots `s1` of `la` and `s4` of `1 - la`.
pub open spec fn th_product_null2(la: (int, int), s1: (int, int), s4: (int, int), d: int, p: int) -> Seq<(int, int)> {
    let s5 = f2_mul(s1, s4, d, p);
    seq![(1int, 0int), s1, s1, la, s4, s5, s4, s5, f2_sub((1int, 0int), la, p), (0int, 0int)]
}

/// Every image of `null` under the `m`-th (2,2)-isogeny is a Jacobian: it has
/// no zero coordinate.
pub open spec fn th_always_jacobian2(null: Seq<(int, int)>, m: int, d: int, p: int) -> bool {
    forall|img: Seq<(int, int)>| #[trigger] th_isogenous2(null, m, img, d, p) ==> th_first_zero2(img, 0) == 10
}

/// Some image of `null` under the `m`-th (2,2)-isogeny splits: it has a zero
/// coordinate.
pub open spec fn th_may_split2(null: Seq<(int, int)>, m: int, d: int, p: int) -> bool {
    exists|img: Seq<(int, int)>| #[trigger] th_isogenous2(null, m, img, d, p) && th_first_zero2(img, 0) < 10
}

/// A superspecial null-point can be generated from the Legendre curve `la`:
/// `la` and `1 - la` have square roots and, whichever roots are taken, all
/// fifteen (2,2)-isogenies of the square of the curve can be computed and one
/// of them always gives a Jacobian.
pub open spec fn th_ssp_defined2(la: (int, int), d: int, p: int) -> bool {
    &&& f2_is_square(la, d, p)
    &&& f2_is_square(f2_sub((1int, 0int), la, p), d, p)
    &&& forall|s1: (int, int), s4: (int, int)|
        #[trigger] th_product_roots2(la, s1, s4, d, p) ==> {
            let null = th_product_null2(la, s1, s4, d, p);
            &&& forall|m: int| 0 <= m < 15 ==> #[trigger] th_isogeny_defined2(null, m, d, p)
            &&& exists|m: int| 0 <= m < 15 && #[trigger] th_always_jacobian2(null, m, d, p)
        }
}

/// `img` is the first Jacobian among the (2,2)-isogenous surfaces of the square
/// of the Legendre curve `la`, for some choice of the square roots.
pub open spec fn th_ssp_theta2(la: (int, int), img: Seq<(int, int)>, d: int, p: int) -> bool {
    exists|s1: (int, int), s4: (int, int), m0: int|
        th_product_roots2(la, s1, s4, d, p) && 0 <= m0 < 15 && #[trigger] th_isogenous2(
            th_product_null2(la, s1, s4, d, p),
            m0,
            img,
            d,
            p,
        ) && th_first_zero2(img, 0) == 10 && forall|m: int|
            0 <= m < m0 ==> #[trigger] th_may_split2(th_product_null2(la, s1, s4, d, p), m, d, p)
}

/// A square root of `x`, which has one.
fn root2<const P: u32, const D: u32>(x: Fp2<P, D>) -> (r: Fp2<P, D>)
    requires
        f2_field(P, D),
        f2_is_square(x@, dmod(D, P), P as int),
    ensures
        f2_mul(r@, r@, dmod(D, P), P as int) == x@,
        r@ == fp2_sqrt_value(x@, dmod(D, P), P as int),
{
    match x.sqrt() {
        Some(y) => y,
        None => {
            proof {
                assert(false);
            }
            x
        },
    }
}

// =============================================================================
// Over Fp2: computation
// =============================================================================

/// The coordinates of `null` moved and multiplied by the row `m` of the
/// transformation tables (`split` false) or of the split tables (`split` true).
fn move_coordinates<const P: u32, const D: u32>(null: &[Fp2<P, D>; 10], split: bool, m: usize, i: Fp2<P, D>) -> (r: [Fp2<P, D>; 10])
    requires
        valid_modulus(P as int),
        split ==> m < 10,
        !split ==> m < 15,
    ensures
        f2_views(r) == th_moved2(f2_views(*null), split, m as int, i@, 10, dmod(D, P), P as int),
{
    let ghost p = P as int;
    let ghost d = dmod(D, P);
    let ghost src = f2_views(*null);
    let zero = Fp2::<P, D>::zero();
    let mut trans: [Fp2<P, D>; 10] = [zero, zero, zero, zero, zero, zero, zero, zero, zero, zero];
    assert(f2_views(trans) =~= th_moved2(src, split, m as int, i@, 0, d, p));
    let mut num: usize = 0;
    while num < 10
        invariant
            split ==> m < 10,
            !split ==> m < 15,
            num <= 10,
            valid_modulus(p),
            p == P as int,
            d == dmod(D, P),
            src == f2_views(*null),
            f2_views(trans) == th_moved2(src, split, m as int, i@, num as nat, d, p),
        decreases 10 - num,
    {
        let index = if split {
            SPLIT_INDICES[m][num]
        } else {
            TRANS_INDICES[m][num]
        };
        let sign = if split {
            SPLIT_SIGNS[m][num]
        } else {
            TRANS_SIGNS[m][num]
        };
        let x = null[num];
        let v = if sign == 0 {
            x
        } else if sign == 1 {
            i.mul(x)
        } else if sign == 2 {
            x.neg()
        } else {
            i.neg().mul(x)
        };
        trans[index] = v;
        assert(f2_views(trans) =~= th_moved2(src, split, m as int, i@, (num + 1) as nat, d, p));
        num = num + 1;
    }
    trans
}

/// The squared theta null-point of the image of the (2,2)-isogeny with square roots `sq`.
fn isogeny_image2<const P: u32, const D: u32>(sq: &[Fp2<P, D>; 4]) -> (r: [Fp2<P, D>; 10])
    requires
        valid_modulus(P as int),
    ensures
        f2_views(r) == th_iso_image2(f2_views(*sq), dmod(D, P), P as int),
{
    let ghost p = P as int;
    let ghost d = dmod(D, P);
    let ghost s = f2_views(*sq);
    let zero = Fp2::<P, D>::zero();
    let mut product_matrix: [Fp2<P, D>; 16] = [
        zero, zero, zero, zero, zero, zero, zero, zero, zero, zero, zero, zero, zero, zero, zero, zero,
    ];
    let mut k: usize = 0;
    while k < 4
        invariant
            k <= 4,
            valid_modulus(p),
            p == P as int,
            d == dmod(D, P),
            s == f2_views(*sq),
            forall|a: int, b: int| 0 <= a < k && 0 <= b < k ==> #[trigger] product_matrix[a * 4 + b]@ == th_pm2(s, a, b, d, p),
        decreases 4 - k,
    {
        let mut j: usize = 0;
        while j <= k
            invariant
                k < 4,
                j <= k + 1,
                valid_modulus(p),
                p == P as int,
                d == dmod(D, P),
                s == f2_views(*sq),
                forall|a: int, b: int| 0 <= a < k && 0 <= b < k ==> #[trigger] product_matrix[a * 4 + b]@ == th_pm2(s, a, b, d, p),
                forall|a: int| 0 <= a < j ==> #[trigger] product_matrix[a * 4 + k]@ == th_pm2(s, a, k as int, d, p),
                forall|a: int| 0 <= a < j ==> #[trigger] product_matrix[k * 4 + a]@ == th_pm2(s, k as int, a, d, p),
            decreases k + 1 - j,
        {
            let value = sq[j].mul(sq[k]);
            product_matrix[j * 4 + k] = value;
            product_matrix[k * 4 + j] = value;
            j = j + 1;
        }
        proof {
            assert forall|a: int, b: int| 0 <= a < k + 1 && 0 <= b < k + 1 implies #[trigger] product_matrix[a * 4 + b]@ == th_pm2(s, a, b, d, p) by {
                if a < k && b < k {
                } else if b == k {
                    assert(product_matrix[a * 4 + k]@ == th_pm2(s, a, k as int, d, p));
                } else {
                    assert(product_matrix[k * 4 + b]@ == th_pm2(s, k as int, b, d, p));
                }
            }
        }
        k = k + 1;
    }
    let mut image_null: [Fp2<P, D>; 10] = [zero, zero, zero, zero, zero, zero, zero, zero, zero, zero];
    let mut num: usize = 0;
    while num < 10
        invariant
            num <= 10,
            valid_modulus(p),
            p == P as int,
            d == dmod(D, P),
            s == f2_views(*sq),
            forall|a: int, b: int| 0 <= a < 4 && 0 <= b < 4 ==> #[trigger] product_matrix[a * 4 + b]@ == th_pm2(s, a, b, d, p),
            forall|j: int| 0 <= j < num ==> #[trigger] image_null[j]@ == th_iso_partial2(s, j, 4, d, p),
            forall|j: int| num <= j < 10 ==> #[trigger] image_null[j]@ == (0int, 0int),
        decreases 10 - num,
    {
        let mut k: usize = 0;
        while k < 4
            invariant
                num < 10,
                k <= 4,
                valid_modulus(p),
                p == P as int,
                d == dmod(D, P),
                s == f2_views(*sq),
                forall|a: int, b: int| 0 <= a < 4 && 0 <= b < 4 ==> #[trigger] product_matrix[a * 4 + b]@ == th_pm2(s, a, b, d, p),
                forall|j: int| 0 <= j < num ==> #[trigger] image_null[j]@ == th_iso_partial2(s, j, 4, d, p),
                forall|j: int| num < j < 10 ==> #[trigger] image_null[j]@ == (0int, 0int),
                image_null[num as int]@ == th_iso_partial2(s, num as int, k as nat, d, p),
            decreases 4 - k,
        {
            let index = ISOGY_INDICES[k][num];
            let v = product_matrix[index * 4 + k];
            let term = if ISOGY_SIGNS[k][num] == 1 {
                v
            } else {
                v.neg()
            };
            image_null[num] = image_null[num].add(term);
            k = k + 1;
        }
        num = num + 1;
    }
    assert(f2_views(image_null) =~= th_iso_image2(s, d, p));
    image_null
}

impl<const P: u32, const D: u32> Theta<Fp2<P, D>> {
    /// Transform a squared theta null-point by the `m`-th symplectic matrix.
    pub fn transform_nullpoint(&self, m: usize) -> (r: Self)
        requires
            m < 15,
            f2_field(P, D),
        ensures
            exists|i: (int, int)|
                f2_is_imag(i, dmod(D, P), P as int)
                    && #[trigger] th_transform2(f2_views(self.null), m as int, i, dmod(D, P), P as int) == f2_views(r.null),
            f2_views(r.null) == th_transform2(f2_views(self.null), m as int, f2_imag_value(dmod(D, P), P as int), dmod(D, P), P as int),
    {
        let i = Fp2::<P, D>::imaginary_unit();
        let trans = move_coordinates(&self.null, false, m, i);
        assert(th_transform2(f2_views(self.null), m as int, i@, dmod(D, P), P as int) == f2_views(trans));
        Theta { null: trans }
    }

    /// Find the index of the first zero if the squared theta null-point
    /// corresponds to a product of two elliptic curves.
    pub fn find_split_index(&self) -> (r: Option<usize>)
        ensures
            r == (if th_first_zero2(f2_views(self.null), 0) < 10 {
                Some(th_first_zero2(f2_views(self.null), 0) as usize)
            } else {
                None
            }),
    {
        let ghost v = f2_views(self.null);
        let mut k: usize = 0;
        while k < 10
            invariant
                k <= 10,
                v == f2_views(self.null),
                th_first_zero2(v, 0) == th_first_zero2(v, k as nat),
            decreases 10 - k,
        {
            if self.null[k].is_zero() {
                return Some(k);
            }
            k = k + 1;
        }
        None
    }

    /// Recover a pair of Legendre invariants from a squared theta null-point.
    pub fn to_legendre_product(&self) -> (r: LegendreProduct<P, D>)
        requires
            f2_field(P, D),
            th_first_zero2(f2_views(self.null), 0) < 10,
            th_legendre_defined2(f2_views(self.null), dmod(D, P), P as int),
        ensures
            exists|i: (int, int)|
                f2_is_imag(i, dmod(D, P), P as int) && (r.e1.la@, r.e2.la@) == th_legendre_pair2(
                    #[trigger] th_moved2(f2_views(self.null), true, th_first_zero2(f2_views(self.null), 0) as int, i, 10, dmod(D, P), P as int),
                    dmod(D, P),
                    P as int,
                ),
            (r.e1.la@, r.e2.la@) == th_legendre_pair2(
                th_moved2(
                    f2_views(self.null),
                    true,
                    th_first_zero2(f2_views(self.null), 0) as int,
                    f2_imag_value(dmod(D, P), P as int),
                    10,
                    dmod(D, P),
                    P as int,
                ),
                dmod(D, P),
                P as int,
            ),
    {
        let ghost p = P as int;
        let ghost d = dmod(D, P);
        let clue = match self.find_split_index() {
            Some(c) => c,
            None => {
                proof {
                    assert(false);
                }
                0
            },
        };
        let i = Fp2::<P, D>::imaginary_unit();
        let t = move_coordinates(&self.null, true, clue, i);
        let t0s = t[0].mul(t[0]);
        let t1s = t[1].mul(t[1]);
        let t2s = t[2].mul(t[2]);
        let den1 = t0s.sub(t1s);
        let den2 = t0s.sub(t2s);
        den1.reduced();
        den2.reduced();
        proof {
            let tv = th_moved2(f2_views(self.null), true, clue as int, i@, 10, d, p);
            assert(f2_views(t)[0] == t[0]@ && f2_views(t)[1] == t[1]@ && f2_views(t)[2] == t[2]@);
            assert(f2_sub(f2_mul(tv[0], tv[0], d, p), f2_mul(tv[1], tv[1], d, p), p) != (0int, 0int));
            assert(f2_sub(f2_mul(tv[0], tv[0], d, p), f2_mul(tv[2], tv[2], d, p), p) != (0int, 0int));
            vstd::arithmetic::div_mod::lemma_mod_bound(D as int, p);
            if f2_norm(den1@, d, p) == 0 {
                lemma_f2_norm_zero(den1@, d, p);
            }
            if f2_norm(den2@, d, p) == 0 {
                lemma_f2_norm_zero(den2@, d, p);
            }
        }
        let la1 = t0s.div(den1);
        let la2 = t0s.div(den2);
        LegendreProduct { e1: Legendre::new(la1), e2: Legendre::new(la2) }
    }

    /// Compute the squared theta null-point of the `m`-th (2,2)-isogenous surface.
    pub fn compute_twoisogeny(&self, m: usize) -> (r: Self)
        requires
            m < 15,
            f2_field(P, D),
            th_isogeny_defined2(f2_views(self.null), m as int, dmod(D, P), P as int),
        ensures
            th_isogenous2(f2_views(self.null), m as int, f2_views(r.null), dmod(D, P), P as int),
            f2_views(r.null) == th_twoisogeny2(f2_views(self.null), m as int, dmod(D, P), P as int),
    {
        let ghost p = P as int;
        let ghost d = dmod(D, P);
        let ghost src = f2_views(self.null);
        let t = self.transform_nullpoint(m).null;
        let ghost i = choose|i: (int, int)| f2_is_imag(i, d, p) && #[trigger] th_transform2(src, m as int, i, d, p) == f2_views(t);
        proof {
            assert(th_iso_defined2(th_transform2(src, m as int, i, d, p), d, p));
            assert(f2_views(t)[1] == t[1]@ && f2_views(t)[2] == t[2]@ && f2_views(t)[3] == t[3]@ && f2_views(t)[0] == t[0]@);
        }
        let sq: [Fp2<P, D>; 4] = if t[0].is_zero() {
            proof {
                assert(f2_is_square(f2_mul(t[1]@, t[2]@, d, p), d, p));
                assert(f2_is_square(f2_mul(t[1]@, t[3]@, d, p), d, p));
            }
            [Fp2::<P, D>::zero(), t[1], root2(t[1].mul(t[2])), root2(t[1].mul(t[3]))]
        } else {
            proof {
                assert(f2_is_square(f2_mul(t[0]@, t[1]@, d, p), d, p));
                assert(f2_is_square(f2_mul(t[0]@, t[2]@, d, p), d, p));
                assert(f2_is_square(f2_mul(t[0]@, t[3]@, d, p), d, p));
            }
            [t[0], root2(t[0].mul(t[1])), root2(t[0].mul(t[2])), root2(t[0].mul(t[3]))]
        };
        proof {
            assert(th_iso_roots2(th_transform2(src, m as int, i, d, p), f2_views(sq), d, p));
            let tv = th_transform2(src, m as int, f2_imag_value(d, p), d, p);
            assert(tv == f2_views(t));
            assert(f2_views(sq) =~= th_library_roots2(tv, d, p));
        }
        let image_null = isogeny_image2(&sq);
        Theta { null: image_null }
    }

    /// The images of the first eight (2,2)-isogenies, the good extensions, when
    /// `is_good`, of all fifteen otherwise; with `only_jacobians`, those that
    /// split into products of elliptic curves are left out.
    pub fn compute_all_twoisogenies(&self, only_jacobians: bool, is_good: bool) -> (r: Vec<Self>)
        requires
            f2_field(P, D),
            forall|m: int|
                0 <= m < th_isogeny_count(is_good) ==> #[trigger] th_isogeny_defined2(
                    f2_views(self.null),
                    m,
                    dmod(D, P),
                    P as int,
                ),
        ensures
            exists|ms: Seq<int>|
                #[trigger] th_images2(
                    f2_views(self.null),
                    th_isogeny_count(is_good),
                    only_jacobians,
                    th_null_views2(r@),
                    ms,
                    dmod(D, P),
                    P as int,
                ),
            th_null_views2(r@) == th_library_images2(
                f2_views(self.null),
                th_isogeny_count(is_good) as nat,
                only_jacobians,
                dmod(D, P),
                P as int,
            ),
    {
        let ghost d = dmod(D, P);
        let ghost p = P as int;
        let ghost src = f2_views(self.null);
        let count: usize = if is_good {
            8
        } else {
            15
        };
        let mut images: Vec<Self> = Vec::new();
        let ghost mut ms: Seq<int> = Seq::empty();
        let mut m: usize = 0;
        while m < count
            invariant
                count == th_isogeny_count(is_good),
                m <= count,
                f2_field(P, D),
                d == dmod(D, P),
                p == P as int,
                src == f2_views(self.null),
                forall|k: int| 0 <= k < count ==> #[trigger] th_isogeny_defined2(src, k, d, p),
                th_images2(src, m as int, only_jacobians, th_null_views2(images@), ms, d, p),
                th_null_views2(images@) == th_library_images2(src, m as nat, only_jacobians, d, p),
            decreases count - m,
        {
            let ghost old_imgs = th_null_views2(images@);
            assert(th_isogeny_defined2(src, m as int, d, p));
            let image = self.compute_twoisogeny(m);
            let split = if only_jacobians {
                match image.find_split_index() {
                    Some(_) => true,
                    None => false,
                }
            } else {
                false
            };
            proof {
                assert(f2_views(image.null) == th_twoisogeny2(src, m as int, d, p));
                lemma_first_zero_bound(f2_views(image.null), 0);
            }
            if split {
                proof {
                    assert(th_library_images2(src, (m + 1) as nat, only_jacobians, d, p) == th_library_images2(src, m as nat, only_jacobians, d, p));
                    assert(th_isogenous2(src, m as int, f2_views(image.null), d, p));
                    assert forall|k: int| 0 <= k < m + 1 && !ms.contains(k) implies only_jacobians && exists|img: Seq<(int, int)>|
                        #[trigger] th_isogenous2(src, k, img, d, p) && th_first_zero2(img, 0) < 10 by {
                        if k == m {
                            assert(th_isogenous2(src, k, f2_views(image.null), d, p) && th_first_zero2(f2_views(image.null), 0) < 10);
                        }
                    }
                }
            } else {
                images.push(image);
                proof {
                    let new_imgs = th_null_views2(images@);
                    let old_ms = ms;
                    ms = ms.push(m as int);
                    assert(new_imgs =~= old_imgs.push(f2_views(image.null)));
                    assert(th_library_images2(src, (m + 1) as nat, only_jacobians, d, p) == old_imgs.push(f2_views(image.null)));
                    assert(th_isogenous2(src, m as int, f2_views(image.null), d, p));
                    lemma_first_zero_bound(f2_views(image.null), 0);
                    assert(only_jacobians ==> th_first_zero2(f2_views(image.null), 0) == 10);
                    assert forall|j: int| 0 <= j < ms.len() implies th_isogenous2(src, ms[j], #[trigger] new_imgs[j], d, p) by {
                        if j < old_ms.len() {
                            assert(new_imgs[j] == old_imgs[j]);
                            assert(ms[j] == old_ms[j]);
                        }
                    }
                    assert forall|j: int| 0 <= j < ms.len() && only_jacobians implies th_first_zero2(#[trigger] new_imgs[j], 0) == 10 by {
                        if j < old_ms.len() {
                            assert(new_imgs[j] == old_imgs[j]);
                        }
                    }
                    assert forall|k: int| 0 <= k < m + 1 && !ms.contains(k) implies only_jacobians && exists|img: Seq<(int, int)>|
                        #[trigger] th_isogenous2(src, k, img, d, p) && th_first_zero2(img, 0) < 10 by {
                        assert(k != m) by {
                            if k == m {
                                assert(ms[ms.len() - 1] == k);
                            }
                        }
                        assert(!old_ms.contains(k)) by {
                            if old_ms.contains(k) {
                                let j = choose|j: int| 0 <= j < old_ms.len() && old_ms[j] == k;
                                assert(ms[j] == k);
                            }
                        }
                    }
                }
            }
            m = m + 1;
        }
        images
    }

    /// Generate a superspecial genus-2 curves null-point: the first
    /// (2,2)-isogenous Jacobian of the square of the supersingular Legendre
    /// curve that `generate_ssg_legendre` finds.
    pub fn generate_ssp_theta() -> (r: Self)
        requires
            f2_field(P, D),
            P > 5,
            P % 4 == 3 || exists|c0: int, c1: int|
                0 <= c0 < P && 0 <= c1 < P && #[trigger] ssg_candidate(c0, c1, dmod(D, P), P as int),
            th_ssp_defined2(ssg_lambda(P as int, dmod(D, P)), dmod(D, P), P as int),
        ensures
            th_ssp_theta2(ssg_lambda(P as int, dmod(D, P)), f2_views(r.null), dmod(D, P), P as int),
            f2_views(r.null) == th_library_ssp_theta2(ssg_lambda(P as int, dmod(D, P)), dmod(D, P), P as int),
    {
        let ghost d = dmod(D, P);
        let ghost p = P as int;
        let e = Legendre::<P, D>::generate_ssg_legendre();
        let la = e.la;
        let one = Fp2::<P, D>::one();
        let s1 = root2(la);
        let l1 = one.sub(la);
        let s4 = root2(l1);
        let s5 = s1.mul(s4);
        s1.reduced();
        s4.reduced();
        let null = [one, s1, s1, la, s4, s5, s4, s5, l1, Fp2::<P, D>::zero()];
        let theta = Self { null };
        let ghost nv = th_product_null2(la@, s1@, s4@, d, p);
        proof {
            assert(f2_views(null) =~= nv);
            assert(th_product_roots2(la@, s1@, s4@, d, p));
        }
        let images = theta.compute_all_twoisogenies(true, false);
        let ghost imgs = th_null_views2(images@);
        let ghost ms = choose|ms: Seq<int>| #[trigger] th_images2(nv, 15, true, imgs, ms, d, p);
        proof {
            let mj = choose|m: int| 0 <= m < 15 && #[trigger] th_always_jacobian2(nv, m, d, p);
            if !ms.contains(mj) {
                let img = choose|img: Seq<(int, int)>| #[trigger] th_isogenous2(nv, mj, img, d, p) && th_first_zero2(img, 0) < 10;
                assert(false);
            }
            assert(images.len() > 0);
        }
        let first = images[0];
        proof {
            assert(imgs[0] == f2_views(first.null));
            let m0 = ms[0];
            assert forall|m: int| 0 <= m < m0 implies #[trigger] th_may_split2(nv, m, d, p) by {
                if ms.contains(m) {
                    let j = choose|j: int| 0 <= j < ms.len() && ms[j] == m;
                    if j > 0 {
                        assert(ms[0] < ms[j]);
                    }
                }
            }
            assert(one@ == (1int, 0int));
            assert(f2_views(first.null) == th_library_ssp_theta2(la@, d, p));
            assert(th_ssp_theta2(la@, f2_views(first.null), d, p)) by {
                assert(th_product_roots2(la@, s1@, s4@, d, p) && 0 <= m0 < 15 && th_isogenous2(nv, m0, f2_views(first.null), d, p));
            }
        }
        first
    }
}

} // verus!
