//! Polynomial arithmetic over the prime field `Fp`.
use crate::fq::{valid_modulus, Fp};
use crate::modular::{
    is_prime, lemma_add_mod_both, lemma_mod_eq_iff_diff, lemma_mod_range, lemma_mul_mod_both, lemma_sub_mod_both,
    lemma_unit_product,
};
use crate::monoid::{lemma_mpow_square_multiply_step, lemma_mpow_unit, monoid_laws, mpow};
use vstd::arithmetic::power::pow;
use vstd::prelude::*;

verus! {

/// A polynomial by its coefficients, constant term first.
#[derive(Clone, Debug, PartialEq, Eq)]
pub struct Polynomial<F> {
    pub coeffs: Vec<F>,
}

/// The coefficients of a polynomial over `Fp`, by their values.
pub open spec fn poly_values<const P: u32>(c: Seq<Fp<P>>) -> Seq<int> {
    c.map_values(|x: Fp<P>| x@)
}

/// `s` without its trailing zeros.
pub open spec fn trim_zeros(s: Seq<int>) -> Seq<int>
    decreases s.len(),
{
    if s.len() > 0 && s.last() == 0 {
        trim_zeros(s.drop_last())
    } else {
        s
    }
}

/// The coefficient of `x^k` in `s`: zero beyond its length.
pub open spec fn coeff_at(s: Seq<int>, k: int) -> int {
    if 0 <= k < s.len() {
        s[k]
    } else {
        0
    }
}

/// The larger of two lengths.
pub open spec fn longer(a: nat, b: nat) -> nat {
    if a >= b {
        a
    } else {
        b
    }
}

/// The sum of two polynomials modulo `p`, trimmed.
pub open spec fn poly_add(a: Seq<int>, b: Seq<int>, p: int) -> Seq<int> {
    trim_zeros(Seq::new(longer(a.len(), b.len()), |i: int| (coeff_at(a, i) + coeff_at(b, i)) % p))
}

/// The difference of two polynomials modulo `p`, trimmed.
pub open spec fn poly_sub(a: Seq<int>, b: Seq<int>, p: int) -> Seq<int> {
    trim_zeros(Seq::new(longer(a.len(), b.len()), |i: int| (coeff_at(a, i) - coeff_at(b, i)) % p))
}

/// The negation of a polynomial modulo `p`, trimmed.
pub open spec fn poly_neg(a: Seq<int>, p: int) -> Seq<int> {
    trim_zeros(Seq::new(a.len(), |i: int| (-a[i]) % p))
}

/// `sum over i < n of a_i b_(k - i)`, the terms with `k - i` outside `b` left out.
pub open spec fn conv(a: Seq<int>, b: Seq<int>, k: int, n: nat) -> int
    decreases n,
{
    if n == 0 {
        0
    } else {
        let i = n - 1;
        conv(a, b, k, (n - 1) as nat) + a[i] * coeff_at(b, k - i)
    }
}

/// The product of two polynomials modulo `p`, trimmed.
pub open spec fn poly_mul(a: Seq<int>, b: Seq<int>, p: int) -> Seq<int> {
    if a.len() == 0 || b.len() == 0 {
        Seq::empty()
    } else {
        trim_zeros(Seq::new((a.len() + b.len() - 1) as nat, |k: int| conv(a, b, k, a.len()) % p))
    }
}

/// `a == q d + r` coefficient by coefficient modulo `p`.
pub open spec fn is_division(a: Seq<int>, d: Seq<int>, q: Seq<int>, r: Seq<int>, p: int) -> bool {
    forall|k: int| 0 <= k ==> #[trigger] coeff_at(a, k) == (conv(q, d, k, q.len()) + coeff_at(r, k)) % p
}

/// `r` is a remainder of `a` by `d`: `a == q d + r` for some `q`, and `r` is
/// shorter than `d`.
pub open spec fn is_remainder(a: Seq<int>, d: Seq<int>, r: Seq<int>, p: int) -> bool {
    &&& r.len() < d.len()
    &&& exists|q: Seq<int>| #[trigger] is_division(a, d, q, r, p)
}

/// `s` has no trailing zero.
pub open spec fn is_trimmed(s: Seq<int>) -> bool {
    s.len() == 0 || s.last() != 0
}

/// `s` divided by its last coefficient, when that is neither 1 nor 0.
pub open spec fn poly_monic(s: Seq<int>, p: int) -> Seq<int> {
    if s.len() > 0 && s.last() != 1 && s.last() != 0 {
        Seq::new(s.len(), |i: int| (s[i] * (pow(s.last(), (p - 2) as nat) % p)) % p)
    } else {
        s
    }
}

/// The remainders `c` of Euclid's algorithm on `a` and `b`: each is a remainder
/// of the two before it, the last is zero, and the others are not.
pub open spec fn is_euclid_chain(a: Seq<int>, b: Seq<int>, c: Seq<Seq<int>>, p: int) -> bool {
    &&& c.len() >= 2
    &&& c[0] == a
    &&& c[1] == b
    &&& c.last().len() == 0
    &&& forall|i: int| 0 <= i < c.len() - 1 ==> #[trigger] c[i + 1].len() > 0 || i + 1 == c.len() - 1
    &&& forall|i: int| 0 <= i < c.len() - 2 ==> is_remainder(#[trigger] c[i], c[i + 1], c[i + 2], p)
}

/// The derivative of a polynomial modulo `p`, trimmed.
pub open spec fn poly_derivative(a: Seq<int>, p: int) -> Seq<int> {
    if a.len() <= 1 {
        Seq::empty()
    } else {
        trim_zeros(Seq::new((a.len() - 1) as nat, |i: int| (a[i + 1] * ((((i + 1) as u32) as int) % p)) % p))
    }
}

/// `trim_zeros` leaves a sequence that is empty or ends in a nonzero value,
/// and keeps a prefix of its argument.
pub proof fn lemma_trim_zeros(s: Seq<int>)
    ensures
        trim_zeros(s).len() <= s.len(),
        trim_zeros(s).len() == 0 || trim_zeros(s).last() != 0,
        trim_zeros(s) == s.subrange(0, trim_zeros(s).len() as int),
        forall|i: int| trim_zeros(s).len() <= i < s.len() ==> s[i] == 0,
    decreases s.len(),
{
    if s.len() > 0 && s.last() == 0 {
        lemma_trim_zeros(s.drop_last());
        assert(trim_zeros(s) == s.drop_last().subrange(0, trim_zeros(s).len() as int));
        assert(s.drop_last().subrange(0, trim_zeros(s).len() as int) =~= s.subrange(0, trim_zeros(s).len() as int));
        assert forall|i: int| trim_zeros(s).len() <= i < s.len() implies s[i] == 0 by {
            if i < s.len() - 1 {
                assert(s.drop_last()[i] == s[i]);
            }
        }
    } else {
        assert(s.subrange(0, s.len() as int) =~= s);
    }
}

/// Changing the coefficient `s` of `q` from `q[s]` to `v` changes the sums
/// `conv(q, d, k, n)` by `(v - q[s]) d_(k - s)`.
proof fn lemma_conv_update(q: Seq<int>, d: Seq<int>, k: int, n: nat, s: int, v: int)
    requires
        0 <= s < n,
        n <= q.len(),
    ensures
        conv(q.update(s, v), d, k, n) == conv(q, d, k, n) + (v - q[s]) * coeff_at(d, k - s),
    decreases n,
{
    let i = n - 1;
    let q2 = q.update(s, v);
    assert(conv(q2, d, k, n) == conv(q2, d, k, (n - 1) as nat) + q2[i] * coeff_at(d, k - i));
    assert(conv(q, d, k, n) == conv(q, d, k, (n - 1) as nat) + q[i] * coeff_at(d, k - i));
    if i == s {
        lemma_conv_unchanged(q, d, k, (n - 1) as nat, s, v);
        assert(v * coeff_at(d, k - s) - q[s] * coeff_at(d, k - s) == (v - q[s]) * coeff_at(d, k - s)) by (nonlinear_arith);
    } else {
        lemma_conv_update(q, d, k, (n - 1) as nat, s, v);
    }
}

/// Changing a coefficient of `q` at or after `n` leaves `conv(q, d, k, n)` alone.
proof fn lemma_conv_unchanged(q: Seq<int>, d: Seq<int>, k: int, n: nat, s: int, v: int)
    requires
        n <= s < q.len(),
    ensures
        conv(q.update(s, v), d, k, n) == conv(q, d, k, n),
    decreases n,
{
    if n > 0 {
        lemma_conv_unchanged(q, d, k, (n - 1) as nat, s, v);
    }
}

/// `conv` over all of `q` does not depend on zeros appended to `q`.
proof fn lemma_conv_zeros(q: Seq<int>, d: Seq<int>, k: int, n: nat)
    requires
        n <= q.len(),
        forall|i: int| n <= i < q.len() ==> q[i] == 0,
    ensures
        conv(q, d, k, q.len()) == conv(q, d, k, n),
    decreases q.len() - n,
{
    if n < q.len() {
        lemma_conv_zeros(q, d, k, n + 1);
        assert(q[n as int] * coeff_at(d, k - n) == 0) by (nonlinear_arith)
            requires
                q[n as int] == 0,
        ;
    }
}

/// `conv(q, d, k, n)` vanishes when the first `n` coefficients of `q` do.
proof fn lemma_conv_all_zero(q: Seq<int>, d: Seq<int>, k: int, n: nat)
    requires
        n <= q.len(),
        forall|u: int| 0 <= u < n ==> q[u] == 0,
    ensures
        conv(q, d, k, n) == 0,
    decreases n,
{
    if n > 0 {
        lemma_conv_all_zero(q, d, k, (n - 1) as nat);
        assert(q[n - 1] * coeff_at(d, k - (n - 1)) == 0) by (nonlinear_arith)
            requires
                q[n - 1] == 0,
        ;
    }
}

/// `conv(q, d, k, n)` reads only the first `n` coefficients of `q`.
proof fn lemma_conv_agree(q: Seq<int>, t: Seq<int>, d: Seq<int>, k: int, n: nat)
    requires
        forall|u: int| 0 <= u < n ==> q[u] == t[u],
    ensures
        conv(q, d, k, n) == conv(t, d, k, n),
    decreases n,
{
    if n > 0 {
        lemma_conv_agree(q, t, d, k, (n - 1) as nat);
    }
}

/// `conv` over `q` equals `conv` over `q` with its trailing zeros dropped.
proof fn lemma_conv_prefix(q: Seq<int>, t: Seq<int>, d: Seq<int>, k: int)
    requires
        t.len() <= q.len(),
        t == q.subrange(0, t.len() as int),
        forall|i: int| t.len() <= i < q.len() ==> q[i] == 0,
    ensures
        conv(q, d, k, q.len()) == conv(t, d, k, t.len()),
{
    lemma_conv_zeros(q, d, k, t.len());
    lemma_conv_agree(q, t, d, k, t.len());
}

/// One step of long division keeps `a == q d + r` modulo `p` and cancels the
/// leading coefficient of the remainder: `q` gains `scale x^shift` and `r` loses
/// `scale x^shift d`.
proof fn lemma_division_step(
    a: Seq<int>,
    dv: Seq<int>,
    q: Seq<int>,
    r: Seq<int>,
    r2: Seq<int>,
    shift: int,
    scale: int,
    inv: int,
    p: int,
)
    requires
        p > 1,
        dv.len() > 0,
        0 <= shift < q.len(),
        q[shift] == 0,
        r.len() == shift + dv.len(),
        r2.len() == r.len(),
        forall|u: int| 0 <= u < r.len() ==> 0 <= #[trigger] r[u] < p,
        (dv.last() * inv) % p == 1,
        scale == (r.last() * inv) % p,
        forall|u: int| 0 <= u < shift ==> #[trigger] r2[u] == r[u],
        forall|u: int| shift <= u < r.len() ==> #[trigger] r2[u] == (r[u] - (dv[u - shift] * scale) % p) % p,
        forall|k: int| 0 <= k ==> #[trigger] coeff_at(a, k) == (conv(q, dv, k, q.len()) + coeff_at(r, k)) % p,
    ensures
        forall|k: int| 0 <= k ==> #[trigger] coeff_at(a, k) == (conv(q.update(shift, scale), dv, k, q.len()) + coeff_at(r2, k)) % p,
        r2.last() == 0,
{
    assert forall|k: int| 0 <= k implies #[trigger] coeff_at(a, k) == (conv(q.update(shift, scale), dv, k, q.len()) + coeff_at(r2, k)) % p by {
        lemma_conv_update(q, dv, k, q.len(), shift, scale);
        let c = conv(q, dv, k, q.len());
        let w = scale * coeff_at(dv, k - shift);
        if shift <= k < r.len() {
            let rk = r[k];
            assert(coeff_at(dv, k - shift) == dv[k - shift]);
            assert(w == dv[k - shift] * scale) by (nonlinear_arith)
                requires
                    w == scale * coeff_at(dv, k - shift),
                    coeff_at(dv, k - shift) == dv[k - shift],
            ;
            // (c + w) + (rk - w % p) % p == c + rk  (mod p)
            lemma_sub_mod_both(rk, w, p);
            lemma_add_mod_both(c + w, rk - w, p);
            lemma_add_mod_both(c + w, (rk - w % p) % p, p);
            assert((c + w) + (rk - w) == c + rk);
        } else {
            assert(coeff_at(dv, k - shift) == 0);
            assert(w == 0) by (nonlinear_arith)
                requires
                    w == scale * coeff_at(dv, k - shift),
                    coeff_at(dv, k - shift) == 0,
            ;
            if 0 <= k < r.len() {
                assert(r2[k] == r[k]);
            }
        }
    }
    // the leading coefficient cancels
    let last = r.len() - 1;
    let lead = dv.last();
    let rl = r.last();
    assert(dv[last - shift] == lead);
    lemma_mul_mod_both(lead, rl * inv, p);
    assert(lead * (rl * inv) == rl * (lead * inv)) by (nonlinear_arith);
    lemma_mul_mod_both(rl, lead * inv, p);
    assert((rl * ((lead * inv) % p)) % p == rl % p);
    vstd::arithmetic::div_mod::lemma_small_mod(rl as nat, p as nat);
    assert((lead * scale) % p == rl);
    assert(r2[last] == (rl - rl) % p);
}

// =============================================================================
// Finite sums
// =============================================================================

/// `f(0) + ... + f(n - 1)`.
pub open spec fn sum_to(f: spec_fn(int) -> int, n: nat) -> int
    decreases n,
{
    if n == 0 {
        0
    } else {
        sum_to(f, (n - 1) as nat) + f(n - 1)
    }
}

/// `i -> f(i) + g(i)`.
pub open spec fn fn_add(f: spec_fn(int) -> int, g: spec_fn(int) -> int) -> spec_fn(int) -> int {
    |i: int| f(i) + g(i)
}

/// `i -> f(i) g(i)`.
pub open spec fn fn_mul(f: spec_fn(int) -> int, g: spec_fn(int) -> int) -> spec_fn(int) -> int {
    |i: int| f(i) * g(i)
}

/// `i -> c f(i)`.
pub open spec fn fn_scale(c: int, f: spec_fn(int) -> int) -> spec_fn(int) -> int {
    |i: int| c * f(i)
}

/// `i -> f(i) mod p`.
pub open spec fn fn_mod(f: spec_fn(int) -> int, p: int) -> spec_fn(int) -> int {
    |i: int| f(i) % p
}

/// `t -> f(s + t)`.
pub open spec fn fn_shift(f: spec_fn(int) -> int, s: int) -> spec_fn(int) -> int {
    |t: int| f(s + t)
}

/// `i -> f(n - 1 - i)`.
pub open spec fn fn_rev(f: spec_fn(int) -> int, n: int) -> spec_fn(int) -> int {
    |i: int| f(n - 1 - i)
}

/// The row `i` of a function of two arguments: `j -> f(i, j)`.
pub open spec fn fn_row(f: spec_fn(int, int) -> int, i: int) -> spec_fn(int) -> int {
    |j: int| f(i, j)
}

/// The column `j` of a function of two arguments: `i -> f(i, j)`.
pub open spec fn fn_col(f: spec_fn(int, int) -> int, j: int) -> spec_fn(int) -> int {
    |i: int| f(i, j)
}

/// The sums of the first `m` entries of each row.
pub open spec fn fn_row_sums(f: spec_fn(int, int) -> int, m: nat) -> spec_fn(int) -> int {
    |i: int| sum_to(fn_row(f, i), m)
}

/// The sums of the first `n` entries of each column.
pub open spec fn fn_col_sums(f: spec_fn(int, int) -> int, n: nat) -> spec_fn(int) -> int {
    |j: int| sum_to(fn_col(f, j), n)
}

/// Sums of functions that agree on the range are equal.
proof fn lemma_sum_ext(f: spec_fn(int) -> int, g: spec_fn(int) -> int, n: nat)
    requires
        forall|i: int| 0 <= i < n ==> #[trigger] f(i) == g(i),
    ensures
        sum_to(f, n) == sum_to(g, n),
    decreases n,
{
    if n > 0 {
        lemma_sum_ext(f, g, (n - 1) as nat);
    }
}

/// Terms that vanish from `m` on do not change the sum.
proof fn lemma_sum_zero_tail(f: spec_fn(int) -> int, m: nat, n: nat)
    requires
        m <= n,
        forall|i: int| m <= i < n ==> #[trigger] f(i) == 0,
    ensures
        sum_to(f, n) == sum_to(f, m),
    decreases n,
{
    if n > m {
        lemma_sum_zero_tail(f, m, (n - 1) as nat);
    }
}

/// The sum of `f + g` is the sum of `f` plus the sum of `g`.
proof fn lemma_sum_add(f: spec_fn(int) -> int, g: spec_fn(int) -> int, n: nat)
    ensures
        sum_to(fn_add(f, g), n) == sum_to(f, n) + sum_to(g, n),
    decreases n,
{
    if n > 0 {
        lemma_sum_add(f, g, (n - 1) as nat);
    }
}

/// A constant factor comes out of the sum.
proof fn lemma_sum_scale(c: int, f: spec_fn(int) -> int, n: nat)
    ensures
        sum_to(fn_scale(c, f), n) == c * sum_to(f, n),
    decreases n,
{
    if n > 0 {
        lemma_sum_scale(c, f, (n - 1) as nat);
        let s = sum_to(f, (n - 1) as nat);
        assert(c * s + c * f(n - 1) == c * (s + f(n - 1))) by (nonlinear_arith);
    }
}

/// The first term comes off the front of the sum.
proof fn lemma_sum_first(f: spec_fn(int) -> int, n: nat)
    requires
        n > 0,
    ensures
        sum_to(f, n) == f(0) + sum_to(fn_shift(f, 1), (n - 1) as nat),
    decreases n,
{
    let sh = fn_shift(f, 1);
    if n > 1 {
        lemma_sum_first(f, (n - 1) as nat);
        assert(sum_to(sh, (n - 1) as nat) == sum_to(sh, (n - 2) as nat) + sh(n - 2));
        assert(sh(n - 2) == f(n - 1));
        assert(sum_to(f, n) == sum_to(f, (n - 1) as nat) + f(n - 1));
    } else {
        assert(sum_to(sh, 0) == 0);
        assert(sum_to(f, 1) == sum_to(f, 0) + f(0));
    }
}

/// A sum read backwards: `sum f(i) == sum f(n - 1 - i)`.
proof fn lemma_sum_reverse(f: spec_fn(int) -> int, n: nat)
    ensures
        sum_to(f, n) == sum_to(fn_rev(f, n as int), n),
    decreases n,
{
    if n > 0 {
        let g = fn_rev(f, n as int);
        lemma_sum_first(g, n);
        lemma_sum_reverse(f, (n - 1) as nat);
        lemma_sum_ext(fn_shift(g, 1), fn_rev(f, n - 1), (n - 1) as nat);
    }
}

/// A sum split at `s`: the terms from `s` on, shifted to start at 0.
proof fn lemma_sum_split(f: spec_fn(int) -> int, s: nat, n: nat)
    requires
        s <= n,
    ensures
        sum_to(f, n) == sum_to(f, s) + sum_to(fn_shift(f, s as int), (n - s) as nat),
    decreases n,
{
    if n > s {
        lemma_sum_split(f, s, (n - 1) as nat);
    }
}

/// Two sums over a rectangle may be taken in either order.
proof fn lemma_sum_swap(f: spec_fn(int, int) -> int, n: nat, m: nat)
    ensures
        sum_to(fn_row_sums(f, m), n) == sum_to(fn_col_sums(f, n), m),
    decreases n,
{
    if n > 0 {
        lemma_sum_swap(f, (n - 1) as nat, m);
        let g = fn_col_sums(f, (n - 1) as nat);
        let h = fn_row(f, n - 1);
        lemma_sum_add(g, h, m);
        assert forall|j: int| 0 <= j < m implies #[trigger] fn_col_sums(f, n)(j) == fn_add(g, h)(j) by {
            assert(sum_to(fn_col(f, j), n) == sum_to(fn_col(f, j), (n - 1) as nat) + fn_col(f, j)(n - 1));
        }
        lemma_sum_ext(fn_col_sums(f, n), fn_add(g, h), m);
        assert(sum_to(fn_row_sums(f, m), n) == sum_to(fn_row_sums(f, m), (n - 1) as nat) + fn_row_sums(f, m)(n - 1));
        assert(fn_row_sums(f, m)(n - 1) == sum_to(h, m));
    } else {
        assert forall|j: int| 0 <= j < m implies #[trigger] fn_col_sums(f, 0)(j) == 0 by {
            assert(sum_to(fn_col(f, j), 0) == 0);
        }
        lemma_sum_zero_tail(fn_col_sums(f, 0), 0, m);
    }
}

/// Reducing the first factor of each term modulo `p` keeps the sum modulo `p`.
proof fn lemma_sum_mod_left(f: spec_fn(int) -> int, g: spec_fn(int) -> int, n: nat, p: int)
    requires
        p > 0,
    ensures
        sum_to(fn_mul(fn_mod(f, p), g), n) % p == sum_to(fn_mul(f, g), n) % p,
    decreases n,
{
    if n > 0 {
        lemma_sum_mod_left(f, g, (n - 1) as nat, p);
        let a = sum_to(fn_mul(fn_mod(f, p), g), (n - 1) as nat);
        let b = sum_to(fn_mul(f, g), (n - 1) as nat);
        lemma_mul_mod_both(f(n - 1), g(n - 1), p);
        lemma_add_mod_both(a, (f(n - 1) % p) * g(n - 1), p);
        lemma_add_mod_both(b, f(n - 1) * g(n - 1), p);
    }
}

/// Reducing the second factor of each term modulo `p` keeps the sum modulo `p`.
proof fn lemma_sum_mod_right(f: spec_fn(int) -> int, g: spec_fn(int) -> int, n: nat, p: int)
    requires
        p > 0,
    ensures
        sum_to(fn_mul(f, fn_mod(g, p)), n) % p == sum_to(fn_mul(f, g), n) % p,
    decreases n,
{
    if n > 0 {
        lemma_sum_mod_right(f, g, (n - 1) as nat, p);
        let a = sum_to(fn_mul(f, fn_mod(g, p)), (n - 1) as nat);
        let b = sum_to(fn_mul(f, g), (n - 1) as nat);
        lemma_mul_mod_both(f(n - 1), g(n - 1), p);
        lemma_add_mod_both(a, f(n - 1) * (g(n - 1) % p), p);
        lemma_add_mod_both(b, f(n - 1) * g(n - 1), p);
    }
}

// =============================================================================
// The ring laws of polynomial multiplication
// =============================================================================

/// The terms `a_i b_(k - i)` of the coefficient of `x^k` in `a b`.
pub open spec fn prod_terms(a: Seq<int>, b: Seq<int>, k: int) -> spec_fn(int) -> int {
    |i: int| coeff_at(a, i) * coeff_at(b, k - i)
}

/// The coefficient of `x^k` in the product of `a` and `b`, before reduction
/// modulo `p`.
pub open spec fn prod_coeff(a: Seq<int>, b: Seq<int>, k: int) -> int {
    if k < 0 {
        0
    } else {
        sum_to(prod_terms(a, b, k), (k + 1) as nat)
    }
}

/// `conv` is a sum of the product terms.
proof fn lemma_conv_as_sum(a: Seq<int>, b: Seq<int>, k: int, n: nat)
    requires
        n <= a.len(),
    ensures
        conv(a, b, k, n) == sum_to(prod_terms(a, b, k), n),
    decreases n,
{
    if n > 0 {
        lemma_conv_as_sum(a, b, k, (n - 1) as nat);
    }
}

/// A product term vanishes beyond the coefficients of `a` and of `b`.
proof fn lemma_prod_terms_zero(a: Seq<int>, b: Seq<int>, k: int, i: int)
    requires
        !(0 <= i < a.len()) || !(0 <= k - i < b.len()),
    ensures
        prod_terms(a, b, k)(i) == 0,
{
    if !(0 <= i < a.len()) {
        assert(coeff_at(a, i) == 0);
        assert(0 * coeff_at(b, k - i) == 0);
    } else {
        assert(coeff_at(b, k - i) == 0);
        assert(coeff_at(a, i) * 0 == 0);
    }
}

/// The coefficient of `x^k` in `poly_mul(a, b)` is `prod_coeff(a, b, k)` modulo `p`.
proof fn lemma_mul_coeff(a: Seq<int>, b: Seq<int>, k: int, p: int)
    requires
        p > 0,
        k >= 0,
    ensures
        coeff_at(poly_mul(a, b, p), k) == prod_coeff(a, b, k) % p,
        is_trimmed(poly_mul(a, b, p)),
{
    let t = prod_terms(a, b, k);
    let n1 = (k + 1) as nat;
    if a.len() == 0 || b.len() == 0 {
        assert forall|i: int| 0 <= i < n1 implies #[trigger] t(i) == 0 by {
            lemma_prod_terms_zero(a, b, k, i);
        }
        lemma_sum_zero_tail(t, 0, n1);
        vstd::arithmetic::div_mod::lemma_small_mod(0, p as nat);
    } else {
        let raw = Seq::new((a.len() + b.len() - 1) as nat, |j: int| conv(a, b, j, a.len()) % p);
        lemma_trim_zeros(raw);
        assert(coeff_at(poly_mul(a, b, p), k) == coeff_at(raw, k));
        if k < a.len() + b.len() - 1 {
            lemma_conv_as_sum(a, b, k, a.len());
            let big = if a.len() >= n1 { a.len() } else { n1 };
            assert forall|i: int| a.len() <= i < big implies #[trigger] t(i) == 0 by {
                lemma_prod_terms_zero(a, b, k, i);
            }
            lemma_sum_zero_tail(t, a.len(), big);
            assert forall|i: int| n1 <= i < big implies #[trigger] t(i) == 0 by {
                lemma_prod_terms_zero(a, b, k, i);
            }
            lemma_sum_zero_tail(t, n1, big);
        } else {
            assert forall|i: int| 0 <= i < n1 implies #[trigger] t(i) == 0 by {
                lemma_prod_terms_zero(a, b, k, i);
            }
            lemma_sum_zero_tail(t, 0, n1);
            vstd::arithmetic::div_mod::lemma_small_mod(0, p as nat);
        }
    }
    lemma_trim_zeros(Seq::new((a.len() + b.len() - 1) as nat, |j: int| conv(a, b, j, a.len()) % p));
}

/// Two trimmed polynomials with the same coefficients are equal.
proof fn lemma_trimmed_ext(x: Seq<int>, y: Seq<int>)
    requires
        is_trimmed(x),
        is_trimmed(y),
        forall|k: int| 0 <= k ==> #[trigger] coeff_at(x, k) == coeff_at(y, k),
    ensures
        x == y,
{
    if x.len() < y.len() {
        assert(coeff_at(y, y.len() - 1) == coeff_at(x, y.len() - 1));
    } else if y.len() < x.len() {
        assert(coeff_at(x, x.len() - 1) == coeff_at(y, x.len() - 1));
    } else {
        assert forall|k: int| 0 <= k < x.len() implies x[k] == y[k] by {
            assert(coeff_at(x, k) == coeff_at(y, k));
        }
        assert(x =~= y);
    }
}

/// Multiplication of polynomials modulo `p` is commutative.
pub proof fn lemma_poly_mul_comm(a: Seq<int>, b: Seq<int>, p: int)
    requires
        p > 0,
    ensures
        poly_mul(a, b, p) == poly_mul(b, a, p),
{
    assert forall|k: int| 0 <= k implies #[trigger] coeff_at(poly_mul(a, b, p), k) == coeff_at(poly_mul(b, a, p), k) by {
        lemma_mul_coeff(a, b, k, p);
        lemma_mul_coeff(b, a, k, p);
        let t = prod_terms(a, b, k);
        lemma_sum_reverse(t, (k + 1) as nat);
        assert forall|i: int| 0 <= i < k + 1 implies #[trigger] fn_rev(t, k + 1)(i) == prod_terms(b, a, k)(i) by {
            vstd::arithmetic::mul::lemma_mul_is_commutative(coeff_at(a, k - i), coeff_at(b, i));
        }
        lemma_sum_ext(fn_rev(t, k + 1), prod_terms(b, a, k), (k + 1) as nat);
    }
    lemma_mul_coeff(a, b, 0, p);
    lemma_mul_coeff(b, a, 0, p);
    lemma_trimmed_ext(poly_mul(a, b, p), poly_mul(b, a, p));
}

/// The terms `a_s b_(i - s) c_(k - i)` of the coefficient of `x^k` in `a b c`.
pub open spec fn triple_terms(a: Seq<int>, b: Seq<int>, c: Seq<int>, k: int) -> spec_fn(int, int) -> int {
    |i: int, s: int| coeff_at(a, s) * coeff_at(b, i - s) * coeff_at(c, k - i)
}

/// The coefficients of the product of `a` and `b`, before reduction, as a function.
pub open spec fn prod_fn(a: Seq<int>, b: Seq<int>) -> spec_fn(int) -> int {
    |i: int| prod_coeff(a, b, i)
}

/// `i |-> c_(k - i)`.
pub open spec fn tail_fn(c: Seq<int>, k: int) -> spec_fn(int) -> int {
    |i: int| coeff_at(c, k - i)
}

/// `s |-> a_s`.
pub open spec fn coeff_fn(a: Seq<int>) -> spec_fn(int) -> int {
    |s: int| coeff_at(a, s)
}

/// `s |-> (b c)_(k - s)`, before reduction.
pub open spec fn prod_tail_fn(b: Seq<int>, c: Seq<int>, k: int) -> spec_fn(int) -> int {
    |s: int| prod_coeff(b, c, k - s)
}

/// `sum_i (a b)_i c_(k - i)` sums the triple terms by rows.
proof fn lemma_assoc_rows(a: Seq<int>, b: Seq<int>, c: Seq<int>, k: int)
    requires
        k >= 0,
    ensures
        sum_to(fn_mul(prod_fn(a, b), tail_fn(c, k)), (k + 1) as nat) == sum_to(
            fn_row_sums(triple_terms(a, b, c, k), (k + 1) as nat),
            (k + 1) as nat,
        ),
{
    let n = (k + 1) as nat;
    let f = triple_terms(a, b, c, k);
    let pa = prod_fn(a, b);
    let cc = tail_fn(c, k);
    assert forall|i: int| 0 <= i < n implies #[trigger] fn_mul(pa, cc)(i) == fn_row_sums(f, n)(i) by {
        let t = prod_terms(a, b, i);
        let ci = coeff_at(c, k - i);
        assert forall|s: int| (i + 1) as nat <= s < n implies #[trigger] t(s) == 0 by {
            lemma_prod_terms_zero(a, b, i, s);
        }
        lemma_sum_zero_tail(t, (i + 1) as nat, n);
        lemma_sum_scale(ci, t, n);
        assert forall|s: int| 0 <= s < n implies #[trigger] fn_scale(ci, t)(s) == fn_row(f, i)(s) by {
            let x = coeff_at(a, s);
            let y = coeff_at(b, i - s);
            assert(ci * (x * y) == x * y * ci) by (nonlinear_arith);
        }
        lemma_sum_ext(fn_scale(ci, t), fn_row(f, i), n);
        assert(ci * sum_to(t, n) == sum_to(t, n) * ci) by (nonlinear_arith);
    }
    lemma_sum_ext(fn_mul(pa, cc), fn_row_sums(f, n), n);
}

/// `sum_s a_s (b c)_(k - s)` sums the triple terms by columns.
proof fn lemma_assoc_cols(a: Seq<int>, b: Seq<int>, c: Seq<int>, k: int)
    requires
        k >= 0,
    ensures
        sum_to(fn_mul(coeff_fn(a), prod_tail_fn(b, c, k)), (k + 1) as nat) == sum_to(
            fn_col_sums(triple_terms(a, b, c, k), (k + 1) as nat),
            (k + 1) as nat,
        ),
{
    let n = (k + 1) as nat;
    let f = triple_terms(a, b, c, k);
    let aa = coeff_fn(a);
    let pb = prod_tail_fn(b, c, k);
    assert forall|s: int| 0 <= s < n implies #[trigger] fn_mul(aa, pb)(s) == fn_col_sums(f, n)(s) by {
        let col = fn_col(f, s);
        let m = (k - s + 1) as nat;
        lemma_sum_split(col, s as nat, n);
        assert forall|i: int| 0 <= i < s implies #[trigger] col(i) == 0 by {
            assert(coeff_at(b, i - s) == 0);
            let x = coeff_at(a, s);
            let z = coeff_at(c, k - i);
            assert(x * 0 * z == 0) by (nonlinear_arith);
        }
        lemma_sum_zero_tail(col, 0, s as nat);
        let t = prod_terms(b, c, k - s);
        let xs = coeff_at(a, s);
        lemma_sum_scale(xs, t, m);
        assert forall|u: int| 0 <= u < m implies #[trigger] fn_shift(col, s)(u) == fn_scale(xs, t)(u) by {
            let y = coeff_at(b, u);
            let z = coeff_at(c, k - s - u);
            assert(coeff_at(b, s + u - s) == y);
            assert(coeff_at(c, k - (s + u)) == z);
            assert(xs * y * z == xs * (y * z)) by (nonlinear_arith);
        }
        lemma_sum_ext(fn_shift(col, s), fn_scale(xs, t), m);
    }
    lemma_sum_ext(fn_mul(aa, pb), fn_col_sums(f, n), n);
}

/// `sum_i (a b)_i c_(k - i) == sum_s a_s (b c)_(k - s)`, before reduction.
proof fn lemma_raw_assoc(a: Seq<int>, b: Seq<int>, c: Seq<int>, k: int)
    requires
        k >= 0,
    ensures
        sum_to(fn_mul(prod_fn(a, b), tail_fn(c, k)), (k + 1) as nat) == sum_to(
            fn_mul(coeff_fn(a), prod_tail_fn(b, c, k)),
            (k + 1) as nat,
        ),
{
    lemma_assoc_rows(a, b, c, k);
    lemma_assoc_cols(a, b, c, k);
    lemma_sum_swap(triple_terms(a, b, c, k), (k + 1) as nat, (k + 1) as nat);
}

/// The coefficient of `x^k` in `(a b) c`, modulo `p`, sums the triple terms by rows.
proof fn lemma_assoc_left(a: Seq<int>, b: Seq<int>, c: Seq<int>, k: int, p: int)
    requires
        p > 0,
        k >= 0,
    ensures
        coeff_at(poly_mul(poly_mul(a, b, p), c, p), k) == sum_to(fn_row_sums(triple_terms(a, b, c, k), (k + 1) as nat), (k + 1) as nat) % p,
{
    let n = (k + 1) as nat;
    let ab = poly_mul(a, b, p);
    let pa = prod_fn(a, b);
    let cc = tail_fn(c, k);
    lemma_mul_coeff(ab, c, k, p);
    assert forall|i: int| 0 <= i < n implies #[trigger] prod_terms(ab, c, k)(i) == fn_mul(fn_mod(pa, p), cc)(i) by {
        lemma_mul_coeff(a, b, i, p);
    }
    lemma_sum_ext(prod_terms(ab, c, k), fn_mul(fn_mod(pa, p), cc), n);
    lemma_sum_mod_left(pa, cc, n, p);
    lemma_assoc_rows(a, b, c, k);
}

/// The coefficient of `x^k` in `a (b c)`, modulo `p`, sums the triple terms by columns.
proof fn lemma_assoc_right(a: Seq<int>, b: Seq<int>, c: Seq<int>, k: int, p: int)
    requires
        p > 0,
        k >= 0,
    ensures
        coeff_at(poly_mul(a, poly_mul(b, c, p), p), k) == sum_to(fn_col_sums(triple_terms(a, b, c, k), (k + 1) as nat), (k + 1) as nat) % p,
{
    let n = (k + 1) as nat;
    let bc = poly_mul(b, c, p);
    let aa = coeff_fn(a);
    let pb = prod_tail_fn(b, c, k);
    lemma_mul_coeff(a, bc, k, p);
    assert forall|s: int| 0 <= s < n implies #[trigger] prod_terms(a, bc, k)(s) == fn_mul(aa, fn_mod(pb, p))(s) by {
        lemma_mul_coeff(b, c, k - s, p);
    }
    lemma_sum_ext(prod_terms(a, bc, k), fn_mul(aa, fn_mod(pb, p)), n);
    lemma_sum_mod_right(aa, pb, n, p);
    lemma_assoc_cols(a, b, c, k);
}

/// Multiplication of polynomials modulo `p` is associative.
pub proof fn lemma_poly_mul_assoc(a: Seq<int>, b: Seq<int>, c: Seq<int>, p: int)
    requires
        p > 0,
    ensures
        poly_mul(poly_mul(a, b, p), c, p) == poly_mul(a, poly_mul(b, c, p), p),
{
    assert forall|k: int| 0 <= k implies #[trigger] coeff_at(poly_mul(poly_mul(a, b, p), c, p), k) == coeff_at(
        poly_mul(a, poly_mul(b, c, p), p),
        k,
    ) by {
        lemma_assoc_left(a, b, c, k, p);
        lemma_assoc_right(a, b, c, k, p);
        lemma_sum_swap(triple_terms(a, b, c, k), (k + 1) as nat, (k + 1) as nat);
    }
    lemma_mul_coeff(poly_mul(a, b, p), c, 0, p);
    lemma_mul_coeff(a, poly_mul(b, c, p), 0, p);
    lemma_trimmed_ext(poly_mul(poly_mul(a, b, p), c, p), poly_mul(a, poly_mul(b, c, p), p));
}

/// The constant polynomial 1 is the unit of multiplication modulo `p` on the
/// trimmed polynomials whose coefficients are least residues.
pub proof fn lemma_poly_mul_one(x: Seq<int>, p: int)
    requires
        p > 1,
        is_trimmed(x),
        forall|i: int| 0 <= i < x.len() ==> 0 <= #[trigger] x[i] < p,
    ensures
        poly_mul(x, seq![1int], p) == x,
{
    let one = seq![1int];
    assert forall|k: int| 0 <= k implies #[trigger] coeff_at(poly_mul(x, one, p), k) == coeff_at(x, k) by {
        lemma_mul_coeff(x, one, k, p);
        let t = prod_terms(x, one, k);
        assert forall|i: int| 0 <= i < k implies #[trigger] t(i) == 0 by {
            lemma_prod_terms_zero(x, one, k, i);
        }
        lemma_sum_zero_tail(t, 0, k as nat);
        assert(t(k) == coeff_at(x, k) * 1);
        assert(0 <= coeff_at(x, k) < p);
        vstd::arithmetic::div_mod::lemma_small_mod(coeff_at(x, k) as nat, p as nat);
    }
    lemma_mul_coeff(x, one, 0, p);
    lemma_trimmed_ext(poly_mul(x, one, p), x);
}

/// Multiplication of polynomials modulo `p` as a function value.
pub open spec fn poly_mul_op(p: int) -> spec_fn(Seq<int>, Seq<int>) -> Seq<int> {
    |x: Seq<int>, y: Seq<int>| poly_mul(x, y, p)
}

/// `a^n` as a polynomial modulo `p`: `a` multiplied `n` times onto 1.
pub open spec fn poly_pow(a: Seq<int>, n: nat, p: int) -> Seq<int> {
    mpow(poly_mul_op(p), seq![1int], a, n)
}

/// A product of polynomials is shorter than the sum of their lengths, and
/// its coefficients are least residues.
proof fn lemma_mul_shape(a: Seq<int>, b: Seq<int>, p: int)
    requires
        p > 0,
    ensures
        a.len() == 0 || b.len() == 0 ==> poly_mul(a, b, p).len() == 0,
        a.len() > 0 && b.len() > 0 ==> poly_mul(a, b, p).len() <= a.len() + b.len() - 1,
        forall|i: int| 0 <= i < poly_mul(a, b, p).len() ==> 0 <= #[trigger] poly_mul(a, b, p)[i] < p,
{
    if a.len() > 0 && b.len() > 0 {
        let raw = Seq::new((a.len() + b.len() - 1) as nat, |j: int| conv(a, b, j, a.len()) % p);
        lemma_trim_zeros(raw);
        assert forall|i: int| 0 <= i < poly_mul(a, b, p).len() implies 0 <= #[trigger] poly_mul(a, b, p)[i] < p by {
            assert(poly_mul(a, b, p)[i] == raw[i]);
            lemma_mod_range(conv(a, b, i, a.len()), p);
        }
    }
}

/// Multiplication of polynomials modulo `p > 1` is a commutative monoid on its
/// products, with unit 1.
pub proof fn lemma_poly_monoid(p: int)
    requires
        p > 1,
    ensures
        monoid_laws(poly_mul_op(p), seq![1int]),
{
    let op = poly_mul_op(p);
    let one = seq![1int];
    assert forall|x: Seq<int>, y: Seq<int>, z: Seq<int>| #[trigger] op(op(x, y), z) == op(x, op(y, z)) by {
        lemma_poly_mul_assoc(x, y, z, p);
    }
    assert forall|x: Seq<int>, y: Seq<int>| #[trigger] op(x, y) == op(y, x) by {
        lemma_poly_mul_comm(x, y, p);
    }
    assert forall|x: Seq<int>, y: Seq<int>| #[trigger] op(op(x, y), one) == op(x, y) by {
        lemma_mul_shape(x, y, p);
        lemma_mul_coeff(x, y, 0, p);
        lemma_poly_mul_one(poly_mul(x, y, p), p);
    }
    vstd::arithmetic::div_mod::lemma_small_mod(1, p as nat);
    lemma_poly_mul_one(one, p);
}

/// Multiplying a power by 1, on either side, gives it back.
proof fn lemma_pow_unit(a: Seq<int>, n: nat, p: int)
    requires
        p > 1,
    ensures
        poly_mul(seq![1int], poly_pow(a, n, p), p) == poly_pow(a, n, p),
        poly_mul(seq![1int], seq![1int], p) == seq![1int],
{
    let op = poly_mul_op(p);
    let one = seq![1int];
    lemma_poly_monoid(p);
    lemma_mpow_unit(op, one, a, n);
    lemma_poly_mul_comm(one, poly_pow(a, n, p), p);
    assert(op(one, one) == one);
}

/// One step of square-and-multiply on polynomials keeps `r * b^e` unchanged,
/// and a product is fixed by multiplication with 1.
proof fn lemma_pow_step(r: Seq<int>, b: Seq<int>, e: nat, p: int)
    requires
        p > 1,
    ensures
        e % 2 == 1 ==> poly_mul(poly_mul(r, b, p), poly_pow(poly_mul(b, b, p), e / 2, p), p) == poly_mul(
            r,
            poly_pow(b, e, p),
            p,
        ),
        e % 2 == 0 ==> poly_mul(r, poly_pow(poly_mul(b, b, p), e / 2, p), p) == poly_mul(r, poly_pow(b, e, p), p),
        poly_mul(poly_mul(r, b, p), seq![1int], p) == poly_mul(r, b, p),
{
    let op = poly_mul_op(p);
    let one = seq![1int];
    lemma_poly_monoid(p);
    lemma_mpow_square_multiply_step(op, one, r, b, e);
    assert(op(op(r, b), one) == op(r, b));
    assert(op(b, b) == poly_mul(b, b, p));
    assert(op(r, b) == poly_mul(r, b, p));
}

// =============================================================================
// Congruence modulo a polynomial
// =============================================================================

/// `a == q m + b` coefficient by coefficient modulo `p`.
pub open spec fn congruent_by(a: Seq<int>, b: Seq<int>, m: Seq<int>, q: Seq<int>, p: int) -> bool {
    forall|k: int| 0 <= k ==> #[trigger] coeff_at(a, k) % p == (prod_coeff(q, m, k) + coeff_at(b, k)) % p
}

/// `a` and `b` differ by a multiple of `m`, modulo `p`.
pub open spec fn poly_congruent(a: Seq<int>, b: Seq<int>, m: Seq<int>, p: int) -> bool {
    exists|q: Seq<int>| #[trigger] congruent_by(a, b, m, q, p)
}

/// The coefficients of the product of `a` and `b`, before reduction.
pub open spec fn raw_product(a: Seq<int>, b: Seq<int>) -> Seq<int> {
    Seq::new(a.len() + b.len(), |j: int| prod_coeff(a, b, j))
}

/// The coefficientwise sum of `a` and `b`, before reduction.
pub open spec fn raw_sum(a: Seq<int>, b: Seq<int>) -> Seq<int> {
    Seq::new(longer(a.len(), b.len()), |i: int| coeff_at(a, i) + coeff_at(b, i))
}

/// A product has no coefficient beyond the sum of the degrees.
proof fn lemma_prod_coeff_beyond(a: Seq<int>, b: Seq<int>, k: int)
    requires
        k >= a.len() + b.len() - 1,
    ensures
        prod_coeff(a, b, k) == 0,
{
    if k >= 0 {
        let t = prod_terms(a, b, k);
        assert forall|i: int| 0 <= i < k + 1 implies #[trigger] t(i) == 0 by {
            lemma_prod_terms_zero(a, b, k, i);
        }
        lemma_sum_zero_tail(t, 0, (k + 1) as nat);
    }
}

/// The coefficients of `raw_product(a, b)` are those of the product.
proof fn lemma_raw_product_coeff(a: Seq<int>, b: Seq<int>, j: int)
    requires
        j >= 0,
    ensures
        coeff_at(raw_product(a, b), j) == prod_coeff(a, b, j),
{
    if j >= a.len() + b.len() {
        lemma_prod_coeff_beyond(a, b, j);
    }
}

/// The product with the empty polynomial has no coefficient.
proof fn lemma_prod_coeff_empty(m: Seq<int>, k: int)
    ensures
        prod_coeff(Seq::<int>::empty(), m, k) == 0,
{
    lemma_prod_coeff_beyond(Seq::<int>::empty(), m, if k >= m.len() - 1 { k } else { m.len() - 1 });
    if k >= 0 {
        let t = prod_terms(Seq::<int>::empty(), m, k);
        assert forall|i: int| 0 <= i < k + 1 implies #[trigger] t(i) == 0 by {
            lemma_prod_terms_zero(Seq::<int>::empty(), m, k, i);
        }
        lemma_sum_zero_tail(t, 0, (k + 1) as nat);
    }
}

/// The product is additive in its first factor, before reduction.
proof fn lemma_prod_coeff_add(q1: Seq<int>, q2: Seq<int>, m: Seq<int>, k: int)
    ensures
        prod_coeff(raw_sum(q1, q2), m, k) == prod_coeff(q1, m, k) + prod_coeff(q2, m, k),
{
    if k >= 0 {
        let n = (k + 1) as nat;
        let s = raw_sum(q1, q2);
        let t1 = prod_terms(q1, m, k);
        let t2 = prod_terms(q2, m, k);
        assert forall|i: int| 0 <= i < n implies #[trigger] prod_terms(s, m, k)(i) == fn_add(t1, t2)(i) by {
            assert(coeff_at(s, i) == coeff_at(q1, i) + coeff_at(q2, i));
            let x = coeff_at(q1, i);
            let y = coeff_at(q2, i);
            let z = coeff_at(m, k - i);
            assert((x + y) * z == x * z + y * z) by (nonlinear_arith);
        }
        lemma_sum_ext(prod_terms(s, m, k), fn_add(t1, t2), n);
        lemma_sum_add(t1, t2, n);
    }
}

/// The product is commutative, before reduction.
proof fn lemma_prod_coeff_comm(a: Seq<int>, b: Seq<int>, k: int)
    ensures
        prod_coeff(a, b, k) == prod_coeff(b, a, k),
{
    if k >= 0 {
        let t = prod_terms(a, b, k);
        lemma_sum_reverse(t, (k + 1) as nat);
        assert forall|i: int| 0 <= i < k + 1 implies #[trigger] fn_rev(t, k + 1)(i) == prod_terms(b, a, k)(i) by {
            vstd::arithmetic::mul::lemma_mul_is_commutative(coeff_at(a, k - i), coeff_at(b, i));
        }
        lemma_sum_ext(fn_rev(t, k + 1), prod_terms(b, a, k), (k + 1) as nat);
    }
}

/// Every polynomial is congruent to itself.
proof fn lemma_congruent_refl(a: Seq<int>, m: Seq<int>, p: int)
    ensures
        congruent_by(a, a, m, Seq::<int>::empty(), p),
{
    assert forall|k: int| 0 <= k implies #[trigger] coeff_at(a, k) % p == (prod_coeff(Seq::<int>::empty(), m, k) + coeff_at(a, k)) % p by {
        lemma_prod_coeff_empty(m, k);
    }
}

/// Congruence is transitive: the multiples of `m` add up.
proof fn lemma_congruent_trans(a: Seq<int>, b: Seq<int>, c: Seq<int>, m: Seq<int>, q1: Seq<int>, q2: Seq<int>, p: int)
    requires
        p > 0,
        congruent_by(a, b, m, q1, p),
        congruent_by(b, c, m, q2, p),
    ensures
        congruent_by(a, c, m, raw_sum(q1, q2), p),
{
    assert forall|k: int| 0 <= k implies #[trigger] coeff_at(a, k) % p == (prod_coeff(raw_sum(q1, q2), m, k) + coeff_at(c, k)) % p by {
        let x = prod_coeff(q1, m, k);
        let y = prod_coeff(q2, m, k);
        let bk = coeff_at(b, k);
        let ck = coeff_at(c, k);
        assert(coeff_at(a, k) % p == (x + bk) % p);
        assert(bk % p == (y + ck) % p);
        lemma_add_mod_both(x, bk, p);
        lemma_add_mod_both(x, y + ck, p);
        lemma_prod_coeff_add(q1, q2, m, k);
        assert(x + (y + ck) == (x + y) + ck);
    }
}

/// Multiplying both sides of a congruence by `c` keeps it.
proof fn lemma_congruent_mul(a: Seq<int>, b: Seq<int>, c: Seq<int>, m: Seq<int>, q: Seq<int>, p: int)
    requires
        p > 0,
        congruent_by(a, b, m, q, p),
    ensures
        congruent_by(poly_mul(a, c, p), poly_mul(b, c, p), m, raw_product(q, c), p),
{
    let qc = raw_product(q, c);
    assert forall|k: int| 0 <= k implies #[trigger] coeff_at(poly_mul(a, c, p), k) % p == (prod_coeff(qc, m, k) + coeff_at(
        poly_mul(b, c, p),
        k,
    )) % p by {
        let n = (k + 1) as nat;
        let g = tail_fn(c, k);
        let fa = coeff_fn(a);
        let fq = prod_fn(q, m);
        let fb = coeff_fn(b);
        let f2 = fn_add(fq, fb);
        lemma_mul_coeff(a, c, k, p);
        lemma_mul_coeff(b, c, k, p);
        lemma_mod_range(prod_coeff(a, c, k), p);
        // the coefficient of a c, through the congruence of a and b
        lemma_sum_ext(prod_terms(a, c, k), fn_mul(fa, g), n);
        assert forall|i: int| 0 <= i < n implies #[trigger] fn_mul(fn_mod(fa, p), g)(i) == fn_mul(fn_mod(f2, p), g)(i) by {
            assert(coeff_at(a, i) % p == (prod_coeff(q, m, i) + coeff_at(b, i)) % p);
        }
        lemma_sum_ext(fn_mul(fn_mod(fa, p), g), fn_mul(fn_mod(f2, p), g), n);
        lemma_sum_mod_left(fa, g, n, p);
        lemma_sum_mod_left(f2, g, n, p);
        // split the sum over q m + b
        assert forall|i: int| 0 <= i < n implies #[trigger] fn_mul(f2, g)(i) == fn_add(fn_mul(fq, g), fn_mul(fb, g))(i) by {
            let x = fq(i);
            let y = fb(i);
            let z = g(i);
            assert((x + y) * z == x * z + y * z) by (nonlinear_arith);
        }
        lemma_sum_ext(fn_mul(f2, g), fn_add(fn_mul(fq, g), fn_mul(fb, g)), n);
        lemma_sum_add(fn_mul(fq, g), fn_mul(fb, g), n);
        lemma_sum_ext(fn_mul(fb, g), prod_terms(b, c, k), n);
        // (q m) c == (q c) m
        lemma_raw_assoc(q, m, c, k);
        lemma_raw_assoc(q, c, m, k);
        assert forall|s: int| 0 <= s < n implies #[trigger] fn_mul(coeff_fn(q), prod_tail_fn(m, c, k))(s) == fn_mul(
            coeff_fn(q),
            prod_tail_fn(c, m, k),
        )(s) by {
            lemma_prod_coeff_comm(m, c, k - s);
        }
        lemma_sum_ext(fn_mul(coeff_fn(q), prod_tail_fn(m, c, k)), fn_mul(coeff_fn(q), prod_tail_fn(c, m, k)), n);
        assert forall|j: int| 0 <= j < n implies #[trigger] fn_mul(prod_fn(q, c), tail_fn(m, k))(j) == prod_terms(qc, m, k)(j) by {
            lemma_raw_product_coeff(q, c, j);
        }
        lemma_sum_ext(fn_mul(prod_fn(q, c), tail_fn(m, k)), prod_terms(qc, m, k), n);
        let z = prod_coeff(qc, m, k);
        let bb = prod_coeff(b, c, k);
        lemma_add_mod_both(z, bb, p);
    }
}

/// Multiplying both sides of a congruence by `c` on the left keeps it.
proof fn lemma_congruent_mul_left(a: Seq<int>, b: Seq<int>, c: Seq<int>, m: Seq<int>, q: Seq<int>, p: int)
    requires
        p > 0,
        congruent_by(a, b, m, q, p),
    ensures
        congruent_by(poly_mul(c, a, p), poly_mul(c, b, p), m, raw_product(q, c), p),
{
    lemma_congruent_mul(a, b, c, m, q, p);
    lemma_poly_mul_comm(a, c, p);
    lemma_poly_mul_comm(b, c, p);
}

/// Congruent polynomials have congruent powers.
proof fn lemma_congruent_pow(a: Seq<int>, b: Seq<int>, m: Seq<int>, n: nat, p: int)
    requires
        p > 0,
        poly_congruent(a, b, m, p),
    ensures
        poly_congruent(poly_pow(a, n, p), poly_pow(b, n, p), m, p),
    decreases n,
{
    let one = seq![1int];
    if n == 0 {
        lemma_congruent_refl(one, m, p);
    } else {
        let k = (n - 1) as nat;
        lemma_congruent_pow(a, b, m, k, p);
        let pa = poly_pow(a, k, p);
        let pb = poly_pow(b, k, p);
        assert(poly_pow(a, n, p) == poly_mul(a, pa, p));
        assert(poly_pow(b, n, p) == poly_mul(b, pb, p));
        let q1 = choose|q: Seq<int>| #[trigger] congruent_by(a, b, m, q, p);
        let q2 = choose|q: Seq<int>| #[trigger] congruent_by(pa, pb, m, q, p);
        lemma_congruent_mul(a, b, pa, m, q1, p);
        lemma_congruent_mul_left(pa, pb, b, m, q2, p);
        lemma_congruent_trans(
            poly_mul(a, pa, p),
            poly_mul(b, pa, p),
            poly_mul(b, pb, p),
            m,
            raw_product(q1, pa),
            raw_product(q2, b),
            p,
        );
    }
}

/// `conv` over all of `q` is the coefficient of the product.
proof fn lemma_conv_prod_coeff(q: Seq<int>, m: Seq<int>, k: int)
    requires
        k >= 0,
    ensures
        conv(q, m, k, q.len()) == prod_coeff(q, m, k),
{
    let t = prod_terms(q, m, k);
    let n1 = (k + 1) as nat;
    let big = if q.len() >= n1 { q.len() } else { n1 };
    lemma_conv_as_sum(q, m, k, q.len());
    assert forall|i: int| q.len() <= i < big implies #[trigger] t(i) == 0 by {
        lemma_prod_terms_zero(q, m, k, i);
    }
    lemma_sum_zero_tail(t, q.len(), big);
    assert forall|i: int| n1 <= i < big implies #[trigger] t(i) == 0 by {
        lemma_prod_terms_zero(q, m, k, i);
    }
    lemma_sum_zero_tail(t, n1, big);
}

/// A division `a == q d + r` is a congruence of `a` and `r` modulo `d`.
proof fn lemma_division_congruent(a: Seq<int>, d: Seq<int>, q: Seq<int>, r: Seq<int>, p: int)
    requires
        p > 0,
        is_division(a, d, q, r, p),
    ensures
        congruent_by(a, r, d, q, p),
{
    assert forall|k: int| 0 <= k implies #[trigger] coeff_at(a, k) % p == (prod_coeff(q, d, k) + coeff_at(r, k)) % p by {
        assert(coeff_at(a, k) == (conv(q, d, k, q.len()) + coeff_at(r, k)) % p);
        lemma_conv_prod_coeff(q, d, k);
        lemma_mod_range(prod_coeff(q, d, k) + coeff_at(r, k), p);
    }
}

/// A congruence of a polynomial with least-residue coefficients is a division.
proof fn lemma_congruent_division(a: Seq<int>, r: Seq<int>, d: Seq<int>, q: Seq<int>, p: int)
    requires
        p > 0,
        congruent_by(a, r, d, q, p),
        forall|i: int| 0 <= i < a.len() ==> 0 <= #[trigger] a[i] < p,
    ensures
        is_division(a, d, q, r, p),
{
    assert forall|k: int| 0 <= k implies #[trigger] coeff_at(a, k) == (conv(q, d, k, q.len()) + coeff_at(r, k)) % p by {
        assert(coeff_at(a, k) % p == (prod_coeff(q, d, k) + coeff_at(r, k)) % p);
        lemma_conv_prod_coeff(q, d, k);
        assert(0 <= coeff_at(a, k) < p);
        vstd::arithmetic::div_mod::lemma_small_mod(coeff_at(a, k) as nat, p as nat);
    }
}

/// The coefficients of a power are least residues.
proof fn lemma_pow_residues(a: Seq<int>, n: nat, p: int)
    requires
        p > 1,
    ensures
        forall|i: int| 0 <= i < poly_pow(a, n, p).len() ==> 0 <= #[trigger] poly_pow(a, n, p)[i] < p,
        is_trimmed(poly_pow(a, n, p)),
{
    if n > 0 {
        let rest = poly_pow(a, (n - 1) as nat, p);
        assert(poly_pow(a, n, p) == poly_mul(a, rest, p));
        lemma_mul_shape(a, rest, p);
        lemma_mul_coeff(a, rest, 0, p);
    }
}

/// One step of square-and-multiply modulo `m` keeps `result * base^e`
/// congruent to the power sought, when the new result and base are congruent
/// to the products they replace.
proof fn lemma_pow_mod_step(t: Seq<int>, r: Seq<int>, b: Seq<int>, e: nat, r2: Seq<int>, b2: Seq<int>, m: Seq<int>, p: int)
    requires
        p > 1,
        poly_congruent(t, poly_mul(r, poly_pow(b, e, p), p), m, p),
        poly_congruent(poly_mul(b, b, p), b2, m, p),
        e % 2 == 1 ==> poly_congruent(poly_mul(r, b, p), r2, m, p),
        e % 2 == 0 ==> r2 == r,
    ensures
        poly_congruent(t, poly_mul(r2, poly_pow(b2, e / 2, p), p), m, p),
{
    let bb = poly_mul(b, b, p);
    let k = e / 2;
    lemma_pow_step(r, b, e, p);
    lemma_congruent_pow(bb, b2, m, k, p);
    let x = poly_pow(bb, k, p);
    let y = poly_pow(b2, k, p);
    let q0 = choose|q: Seq<int>| #[trigger] congruent_by(t, poly_mul(r, poly_pow(b, e, p), p), m, q, p);
    let qp = choose|q: Seq<int>| #[trigger] congruent_by(x, y, m, q, p);
    // r2 x == r2 y
    lemma_congruent_mul_left(x, y, r2, m, qp, p);
    if e % 2 == 1 {
        let rb = poly_mul(r, b, p);
        let qr = choose|q: Seq<int>| #[trigger] congruent_by(rb, r2, m, q, p);
        lemma_congruent_mul(rb, r2, x, m, qr, p);
        lemma_congruent_trans(t, poly_mul(rb, x, p), poly_mul(r2, x, p), m, q0, raw_product(qr, x), p);
        lemma_congruent_trans(
            t,
            poly_mul(r2, x, p),
            poly_mul(r2, y, p),
            m,
            raw_sum(q0, raw_product(qr, x)),
            raw_product(qp, r2),
            p,
        );
    } else {
        lemma_congruent_trans(t, poly_mul(r2, x, p), poly_mul(r2, y, p), m, q0, raw_product(qp, r2), p);
    }
}

// =============================================================================
// Uniqueness of the remainder
// =============================================================================

/// The coefficientwise difference of `a` and `b`, before reduction.
pub open spec fn raw_diff(a: Seq<int>, b: Seq<int>) -> Seq<int> {
    Seq::new(longer(a.len(), b.len()), |i: int| coeff_at(a, i) - coeff_at(b, i))
}

/// The product is subtractive in its first factor, before reduction.
proof fn lemma_prod_coeff_sub(q1: Seq<int>, q2: Seq<int>, m: Seq<int>, k: int)
    ensures
        prod_coeff(raw_diff(q1, q2), m, k) == prod_coeff(q1, m, k) - prod_coeff(q2, m, k),
{
    if k >= 0 {
        let n = (k + 1) as nat;
        let s = raw_diff(q1, q2);
        let t1 = prod_terms(q1, m, k);
        let t2 = prod_terms(q2, m, k);
        assert forall|i: int| 0 <= i < n implies #[trigger] prod_terms(s, m, k)(i) == fn_add(t1, fn_scale(-1, t2))(i) by {
            assert(coeff_at(s, i) == coeff_at(q1, i) - coeff_at(q2, i));
            let x = coeff_at(q1, i);
            let y = coeff_at(q2, i);
            let z = coeff_at(m, k - i);
            assert((x - y) * z == x * z + (-1) * (y * z)) by (nonlinear_arith);
        }
        lemma_sum_ext(prod_terms(s, m, k), fn_add(t1, fn_scale(-1, t2)), n);
        lemma_sum_add(t1, fn_scale(-1, t2), n);
        lemma_sum_scale(-1, t2, n);
    }
}

/// A sum with one nonzero term is that term.
proof fn lemma_sum_single(f: spec_fn(int) -> int, j: int, n: nat)
    requires
        0 <= j < n,
        forall|i: int| 0 <= i < n && i != j ==> #[trigger] f(i) == 0,
    ensures
        sum_to(f, n) == f(j),
{
    lemma_sum_zero_tail(f, (j + 1) as nat, n);
    lemma_sum_zero_tail(f, 0, j as nat);
    assert(sum_to(f, (j + 1) as nat) == sum_to(f, j as nat) + f(j));
}

/// The last of the first `n` entries of `s` that is nonzero modulo `p`.
proof fn lemma_last_nonzero(s: Seq<int>, p: int, n: nat) -> (j: int)
    requires
        n <= s.len(),
        exists|i: int| 0 <= i < n && #[trigger] s[i] % p != 0,
    ensures
        0 <= j < n,
        s[j] % p != 0,
        forall|i: int| j < i < n ==> #[trigger] s[i] % p == 0,
    decreases n,
{
    if s[n - 1] % p != 0 {
        n - 1
    } else {
        let w = choose|i: int| 0 <= i < n && #[trigger] s[i] % p != 0;
        assert(0 <= w < n - 1);
        lemma_last_nonzero(s, p, (n - 1) as nat)
    }
}

/// The remainder of a division by a polynomial whose leading coefficient is
/// nonzero modulo a prime `p` is unique: two trimmed remainders of `a` by `d`
/// with least-residue coefficients are equal.
pub proof fn lemma_remainder_unique(a: Seq<int>, d: Seq<int>, r1: Seq<int>, r2: Seq<int>, p: int)
    requires
        is_prime(p),
        d.len() > 0,
        d.last() % p != 0,
        is_remainder(a, d, r1, p),
        is_remainder(a, d, r2, p),
        is_trimmed(r1),
        is_trimmed(r2),
        forall|i: int| 0 <= i < r1.len() ==> 0 <= #[trigger] r1[i] < p,
        forall|i: int| 0 <= i < r2.len() ==> 0 <= #[trigger] r2[i] < p,
    ensures
        r1 == r2,
{
    let q1 = choose|q: Seq<int>| #[trigger] is_division(a, d, q, r1, p);
    let q2 = choose|q: Seq<int>| #[trigger] is_division(a, d, q, r2, p);
    let dq = raw_diff(q1, q2);
    // the multiple of d by the difference of the quotients is r2 - r1
    assert forall|k: int| 0 <= k implies #[trigger] prod_coeff(dq, d, k) % p == (coeff_at(r2, k) - coeff_at(r1, k)) % p by {
        lemma_conv_prod_coeff(q1, d, k);
        lemma_conv_prod_coeff(q2, d, k);
        lemma_prod_coeff_sub(q1, q2, d, k);
        let x1 = prod_coeff(q1, d, k) + coeff_at(r1, k);
        let x2 = prod_coeff(q2, d, k) + coeff_at(r2, k);
        assert(coeff_at(a, k) == x1 % p);
        assert(coeff_at(a, k) == x2 % p);
        lemma_mod_eq_iff_diff(x1, x2, p);
        assert(x1 - x2 == prod_coeff(dq, d, k) - (coeff_at(r2, k) - coeff_at(r1, k)));
        lemma_mod_eq_iff_diff(prod_coeff(dq, d, k), coeff_at(r2, k) - coeff_at(r1, k), p);
    }
    if exists|i: int| 0 <= i < dq.len() && #[trigger] dq[i] % p != 0 {
        // the top term of the difference times the top of d survives
        let j = lemma_last_nonzero(dq, p, dq.len());
        let k = j + d.len() - 1;
        let n = (k + 1) as nat;
        let g = tail_fn(d, k);
        let fd = coeff_fn(dq);
        let h = fn_mul(fn_mod(fd, p), g);
        assert(prod_coeff(dq, d, k) % p == (coeff_at(r2, k) - coeff_at(r1, k)) % p);
        assert(coeff_at(r2, k) - coeff_at(r1, k) == 0);
        lemma_sum_ext(prod_terms(dq, d, k), fn_mul(fd, g), n);
        lemma_sum_mod_left(fd, g, n, p);
        assert forall|i: int| 0 <= i < n && i != j implies #[trigger] h(i) == 0 by {
            if i > j {
                if i < dq.len() {
                    assert(dq[i] % p == 0);
                } else {
                    assert(coeff_at(dq, i) == 0);
                }
                assert(0 * g(i) == 0);
            } else {
                assert(g(i) == 0);
                assert(fn_mod(fd, p)(i) * 0 == 0);
            }
        }
        lemma_sum_single(h, j, n);
        assert(g(j) == d.last());
        lemma_mod_range(dq[j], p);
        lemma_unit_product(dq[j] % p, d.last(), p);
        assert(false);
    }
    // so every coefficient of the difference vanishes modulo p, and so does r2 - r1
    assert forall|k: int| 0 <= k implies #[trigger] coeff_at(r1, k) == coeff_at(r2, k) by {
        let n = (k + 1) as nat;
        let g = tail_fn(d, k);
        let fd = coeff_fn(dq);
        let h = fn_mul(fn_mod(fd, p), g);
        lemma_sum_ext(prod_terms(dq, d, k), fn_mul(fd, g), n);
        lemma_sum_mod_left(fd, g, n, p);
        assert forall|i: int| 0 <= i < n implies #[trigger] h(i) == 0 by {
            if 0 <= i < dq.len() {
                assert(dq[i] % p == 0);
            } else {
                assert(coeff_at(dq, i) == 0);
            }
            assert(0 * g(i) == 0);
        }
        lemma_sum_zero_tail(h, 0, n);
        assert(prod_coeff(dq, d, k) % p == (coeff_at(r2, k) - coeff_at(r1, k)) % p);
        lemma_mod_eq_iff_diff(coeff_at(r2, k), coeff_at(r1, k), p);
        assert(0 <= coeff_at(r1, k) < p);
        assert(0 <= coeff_at(r2, k) < p);
        vstd::arithmetic::div_mod::lemma_small_mod(coeff_at(r1, k) as nat, p as nat);
        vstd::arithmetic::div_mod::lemma_small_mod(coeff_at(r2, k) as nat, p as nat);
    }
    lemma_trimmed_ext(r1, r2);
}

impl<const P: u32> Polynomial<Fp<P>> {
    /// The coefficients of the polynomial, by their values.
    pub open spec fn values(&self) -> Seq<int> {
        poly_values(self.coeffs@)
    }

    /// Trim leading zero coefficients.
    fn trim(&mut self)
        ensures
            final(self).values() == trim_zeros(old(self).values()),
    {
        let ghost start = self.values();
        proof {
            assert(trim_zeros(start) == trim_zeros(self.values()));
        }
        while self.coeffs.len() > 0 && self.coeffs[self.coeffs.len() - 1].is_zero()
            invariant
                trim_zeros(start) == trim_zeros(self.values()),
            decreases self.coeffs.len(),
        {
            let ghost before = self.values();
            self.coeffs.pop();
            proof {
                assert(self.values() =~= before.drop_last());
            }
        }
    }

    /// The polynomial with the coefficients `coeffs`, trailing zeros dropped.
    pub fn new(coeffs: Vec<Fp<P>>) -> (r: Self)
        ensures
            r.values() == trim_zeros(poly_values(coeffs@)),
    {
        let mut poly = Self { coeffs };
        poly.trim();
        poly
    }

    /// Zero polynomial
    pub fn zero() -> (r: Self)
        ensures
            r.values() == Seq::<int>::empty(),
    {
        let r = Self { coeffs: Vec::new() };
        assert(r.values() =~= Seq::<int>::empty());
        r
    }

    /// The constant polynomial 1.
    pub fn one() -> (r: Self)
        requires
            valid_modulus(P as int),
        ensures
            r.values() == seq![1int],
    {
        let r = Self { coeffs: vec![Fp::<P>::one()] };
        assert(r.values() =~= seq![1int]);
        r
    }

    /// Create a constant polynomial
    pub fn constant(c: Fp<P>) -> (r: Self)
        ensures
            r.values() == (if c@ == 0 { Seq::<int>::empty() } else { seq![c@] }),
    {
        if c.is_zero() {
            Self::zero()
        } else {
            let r = Self { coeffs: vec![c] };
            assert(r.values() =~= seq![c@]);
            r
        }
    }

    /// Whether the polynomial has no coefficients: the zero polynomial.
    pub fn is_zero(&self) -> (r: bool)
        ensures
            r == (self.coeffs.len() == 0),
    {
        self.coeffs.len() == 0
    }

    /// The index of the last coefficient; 0 for the zero polynomial.
    pub fn degree(&self) -> (r: usize)
        ensures
            r == (if self.coeffs.len() == 0 { 0 } else { self.coeffs.len() - 1 }),
    {
        if self.is_zero() {
            0
        } else {
            self.coeffs.len() - 1
        }
    }

    /// Coefficient of x^k
    pub fn coeff(&self, k: usize) -> (r: Fp<P>)
        requires
            valid_modulus(P as int),
        ensures
            r@ == coeff_at(self.values(), k as int),
    {
        if k < self.coeffs.len() {
            self.coeffs[k]
        } else {
            Fp::<P>::zero()
        }
    }

    /// The formal derivative: the coefficient `c_i` of `x^i` becomes `i c_i` at `x^(i - 1)`.
    pub fn derivative(&self) -> (r: Self)
        ensures
            r.values() == poly_derivative(self.values(), P as int),
    {
        if self.coeffs.len() <= 1 {
            return Self::zero();
        }
        let _ = self.coeffs[0].value();
        let ghost a = self.values();
        let ghost p = P as int;
        let mut res: Vec<Fp<P>> = Vec::new();
        let mut i: usize = 1;
        while i < self.coeffs.len()
            invariant
                valid_modulus(p),
                p == P as int,
                a == self.values(),
                1 <= i <= self.coeffs.len(),
                poly_values(res@) =~= Seq::new((i - 1) as nat, |k: int| (a[k + 1] * ((((k + 1) as u32) as int) % p)) % p),
            decreases self.coeffs.len() - i,
        {
            let ghost before = res@;
            let v = self.coeffs[i].mul(Fp::new(#[verifier::truncate] (i as u32)));
            res.push(v);
            proof {
                assert(poly_values(res@) =~= poly_values(before).push(v@));
            }
            i = i + 1;
        }
        Self::new(res)
    }

    /// The sum of two polynomials.
    pub fn add(&self, rhs: &Self) -> (r: Self)
        ensures
            r.values() == poly_add(self.values(), rhs.values(), P as int),
    {
        let ghost a = self.values();
        let ghost b = rhs.values();
        let ghost p = P as int;
        let max_len = if self.coeffs.len() >= rhs.coeffs.len() {
            self.coeffs.len()
        } else {
            rhs.coeffs.len()
        };
        let mut res: Vec<Fp<P>> = Vec::new();
        if max_len > 0 {
            if self.coeffs.len() > 0 {
                let _ = self.coeffs[0].value();
            } else {
                let _ = rhs.coeffs[0].value();
            }
        }
        let mut i: usize = 0;
        while i < max_len
            invariant
                max_len > 0 ==> valid_modulus(p),
                p == P as int,
                a == self.values(),
                b == rhs.values(),
                max_len == longer(a.len(), b.len()),
                i <= max_len,
                poly_values(res@) =~= Seq::new(i as nat, |k: int| (coeff_at(a, k) + coeff_at(b, k)) % p),
            decreases max_len - i,
        {
            let ghost before = res@;
            let v = self.coeff(i).add(rhs.coeff(i));
            res.push(v);
            proof {
                assert(poly_values(res@) =~= poly_values(before).push(v@));
            }
            i = i + 1;
        }
        Self::new(res)
    }

    /// The difference of two polynomials.
    pub fn sub(&self, rhs: &Self) -> (r: Self)
        ensures
            r.values() == poly_sub(self.values(), rhs.values(), P as int),
    {
        let ghost a = self.values();
        let ghost b = rhs.values();
        let ghost p = P as int;
        let max_len = if self.coeffs.len() >= rhs.coeffs.len() {
            self.coeffs.len()
        } else {
            rhs.coeffs.len()
        };
        let mut res: Vec<Fp<P>> = Vec::new();
        if max_len > 0 {
            if self.coeffs.len() > 0 {
                let _ = self.coeffs[0].value();
            } else {
                let _ = rhs.coeffs[0].value();
            }
        }
        let mut i: usize = 0;
        while i < max_len
            invariant
                max_len > 0 ==> valid_modulus(p),
                p == P as int,
                a == self.values(),
                b == rhs.values(),
                max_len == longer(a.len(), b.len()),
                i <= max_len,
                poly_values(res@) =~= Seq::new(i as nat, |k: int| (coeff_at(a, k) - coeff_at(b, k)) % p),
            decreases max_len - i,
        {
            let ghost before = res@;
            let v = self.coeff(i).sub(rhs.coeff(i));
            res.push(v);
            proof {
                assert(poly_values(res@) =~= poly_values(before).push(v@));
            }
            i = i + 1;
        }
        Self::new(res)
    }

    /// The negation of a polynomial.
    pub fn neg(&self) -> (r: Self)
        ensures
            r.values() == poly_neg(self.values(), P as int),
    {
        let ghost a = self.values();
        let ghost p = P as int;
        let mut res: Vec<Fp<P>> = Vec::new();
        let mut i: usize = 0;
        while i < self.coeffs.len()
            invariant
                p == P as int,
                a == self.values(),
                i <= self.coeffs.len(),
                poly_values(res@) =~= Seq::new(i as nat, |k: int| (-a[k]) % p),
            decreases self.coeffs.len() - i,
        {
            let ghost before = res@;
            let v = self.coeffs[i].neg();
            res.push(v);
            proof {
                assert(poly_values(res@) =~= poly_values(before).push(v@));
            }
            i = i + 1;
        }
        Self::new(res)
    }

    /// The product of two polynomials.
    pub fn mul(&self, rhs: &Self) -> (r: Self)
        requires
            self.coeffs.len() + rhs.coeffs.len() <= usize::MAX,
        ensures
            r.values() == poly_mul(self.values(), rhs.values(), P as int),
    {
        if self.is_zero() || rhs.is_zero() {
            return Self::zero();
        }
        let _ = self.coeffs[0].value();
        let ghost a = self.values();
        let ghost b = rhs.values();
        let ghost p = P as int;
        let n = self.coeffs.len();
        let m = rhs.coeffs.len();
        let len = n + m - 1;
        let zero = Fp::<P>::zero();
        let mut res: Vec<Fp<P>> = Vec::new();
        let mut k: usize = 0;
        while k < len
            invariant
                k <= len,
                res.len() == k,
                zero@ == 0,
                forall|t: int| 0 <= t < k ==> #[trigger] res[t]@ == 0,
            decreases len - k,
        {
            res.push(zero);
            k = k + 1;
        }
        proof {
            vstd::arithmetic::div_mod::lemma_small_mod(0, P as nat);
        }
        let mut i: usize = 0;
        while i < n
            invariant
                valid_modulus(p),
                p == P as int,
                a == self.values(),
                b == rhs.values(),
                n == a.len(),
                m == b.len(),
                m > 0,
                len == n + m - 1,
                i <= n,
                res.len() == len,
                forall|t: int| 0 <= t < len ==> #[trigger] res[t]@ == conv(a, b, t, i as nat) % p,
            decreases n - i,
        {
            let mut j: usize = 0;
            while j < m
                invariant
                    valid_modulus(p),
                    p == P as int,
                    a == self.values(),
                    b == rhs.values(),
                    n == a.len(),
                    m == b.len(),
                    len == n + m - 1,
                    i < n,
                    j <= m,
                    res.len() == len,
                    forall|t: int|
                        0 <= t < len ==> #[trigger] res[t]@ == (conv(a, b, t, i as nat) + (if i <= t < i + j {
                            a[i as int] * b[t - i]
                        } else {
                            0
                        })) % p,
                decreases m - j,
            {
                let idx = i + j;
                let cur = res[idx];
                let prod = self.coeffs[i].mul(rhs.coeffs[j]);
                let next = cur.add(prod);
                res.set(idx, next);
                proof {
                    let c = conv(a, b, idx as int, i as nat);
                    assert(cur@ == c % p);
                    assert(prod@ == (a[i as int] * b[j as int]) % p);
                    lemma_add_mod_both(c, a[i as int] * b[j as int], p);
                    assert(next@ == (c + a[i as int] * b[idx - i]) % p);
                }
                j = j + 1;
            }
            proof {
                assert forall|t: int| 0 <= t < len implies #[trigger] res[t]@ == conv(a, b, t, (i + 1) as nat) % p by {
                    assert(conv(a, b, t, (i + 1) as nat) == conv(a, b, t, i as nat) + a[i as int] * coeff_at(b, t - i));
                    if !(i <= t < i + m) {
                        assert(coeff_at(b, t - i) == 0);
                        assert(a[i as int] * coeff_at(b, t - i) == 0);
                    }
                }
            }
            i = i + 1;
        }
        proof {
            assert(poly_values(res@) =~= Seq::new((a.len() + b.len() - 1) as nat, |t: int| conv(a, b, t, a.len()) % p));
        }
        Self::new(res)
    }

    /// Make the leading coefficient 1: divide every coefficient by the last
    /// one, when that is neither 1 nor 0.
    pub fn make_monic(&mut self)
        ensures
            final(self).values() == poly_monic(old(self).values(), P as int),
    {
        let ghost a = self.values();
        let ghost p = P as int;
        let n = self.coeffs.len();
        if n > 0 {
            let lead = self.coeffs[n - 1];
            if lead.value() != 1 {
                match lead.inverse() {
                    Some(inv) => {
                        let mut i: usize = 0;
                        while i < n
                            invariant
                                p == P as int,
                                n == a.len(),
                                n > 0,
                                a.last() == lead@,
                                inv@ == pow(lead@, (P - 2) as nat) % p,
                                i <= n,
                                self.coeffs.len() == n,
                                forall|t: int| 0 <= t < i ==> #[trigger] self.coeffs[t]@ == (a[t] * inv@) % p,
                                forall|t: int| i <= t < n ==> #[trigger] self.coeffs[t]@ == a[t],
                            decreases n - i,
                        {
                            let c = self.coeffs[i].mul(inv);
                            self.coeffs.set(i, c);
                            i = i + 1;
                        }
                        proof {
                            assert(self.values() =~= Seq::new(n as nat, |t: int| (a[t] * (pow(a.last(), (P - 2) as nat) % p)) % p));
                        }
                    },
                    None => {},
                }
            }
        }
    }

    /// Every coefficient is a least residue modulo `P`.
    fn residues(&self)
        ensures
            forall|u: int| 0 <= u < self.coeffs.len() ==> 0 <= #[trigger] self.values()[u] < P,
    {
        let mut i: usize = 0;
        while i < self.coeffs.len()
            invariant
                i <= self.coeffs.len(),
                forall|u: int| 0 <= u < i ==> 0 <= #[trigger] self.values()[u] < P,
            decreases self.coeffs.len() - i,
        {
            let _ = self.coeffs[i].value();
            i = i + 1;
        }
    }

    /// A copy of the polynomial.
    fn copy(&self) -> (r: Self)
        ensures
            r.values() == self.values(),
    {
        let mut coeffs: Vec<Fp<P>> = Vec::new();
        let mut i: usize = 0;
        while i < self.coeffs.len()
            invariant
                i <= self.coeffs.len(),
                coeffs@ == self.coeffs@.subrange(0, i as int),
            decreases self.coeffs.len() - i,
        {
            coeffs.push(self.coeffs[i]);
            i = i + 1;
        }
        assert(coeffs@ =~= self.coeffs@);
        Self { coeffs }
    }

    /// Returns quotient and remainder (self / divisor, self % divisor): the
    /// remainder is shorter than the divisor, and each coefficient of `self`
    /// is that of `quotient * divisor + remainder` modulo `P`.
    pub fn div_rem(&self, divisor: &Self) -> (r: (Self, Self))
        requires
            is_prime(P as int),
            divisor.coeffs.len() > 0,
            divisor.values().last() != 0,
        ensures
            r.1.coeffs.len() < divisor.coeffs.len(),
            is_division(self.values(), divisor.values(), r.0.values(), r.1.values(), P as int),
            is_trimmed(self.values()) || self.coeffs.len() >= divisor.coeffs.len() ==> is_trimmed(r.1.values()),
            is_trimmed(r.0.values()),
    {
        let _ = divisor.coeffs[0].value();
        self.residues();
        let ghost p = P as int;
        let ghost a = self.values();
        let ghost dv = divisor.values();
        if self.is_zero() {
            let r = (Self::zero(), Self::zero());
            proof {
                assert forall|k: int| 0 <= k implies #[trigger] coeff_at(self.values(), k) == (conv(r.0.values(), dv, k, r.0.values().len())
                    + coeff_at(r.1.values(), k)) % p by {
                    vstd::arithmetic::div_mod::lemma_small_mod(0, P as nat);
                }
            }
            return r;
        }
        let div_deg = divisor.degree();
        let self_deg = self.degree();
        if self_deg < div_deg {
            let r = (Self::zero(), self.copy());
            proof {
                assert forall|k: int| 0 <= k implies #[trigger] coeff_at(self.values(), k) == (conv(r.0.values(), dv, k, r.0.values().len())
                    + coeff_at(r.1.values(), k)) % p by {
                    let c = coeff_at(a, k);
                    assert(0 <= c < p);
                    vstd::arithmetic::div_mod::lemma_small_mod(c as nat, P as nat);
                }
            }
            return r;
        }
        let zero = Fp::<P>::zero();
        let qlen = self_deg - div_deg + 1;
        let mut quotient_coeffs: Vec<Fp<P>> = Vec::new();
        let mut t: usize = 0;
        while t < qlen
            invariant
                t <= qlen,
                quotient_coeffs.len() == t,
                zero@ == 0,
                forall|u: int| 0 <= u < t ==> #[trigger] quotient_coeffs[u]@ == 0,
            decreases qlen - t,
        {
            quotient_coeffs.push(zero);
            t = t + 1;
        }
        let mut remainder = self.copy();
        let div_lead = divisor.coeffs[div_deg];
        let div_lead_inv = match div_lead.inverse() {
            Some(v) => v,
            None => {
                proof {
                    assert(false);
                }
                zero
            },
        };
        proof {
            vstd::arithmetic::div_mod::lemma_small_mod(0, P as nat);
            assert forall|k: int| 0 <= k implies #[trigger] coeff_at(a, k) == (conv(poly_values(quotient_coeffs@), dv, k, qlen as nat)
                + coeff_at(remainder.values(), k)) % p by {
                let q = poly_values(quotient_coeffs@);
                assert forall|u: int| 0 <= u < qlen implies q[u] == 0 by {}
                lemma_conv_all_zero(q, dv, k, qlen as nat);
                let c = coeff_at(a, k);
                assert(0 <= c < p);
                vstd::arithmetic::div_mod::lemma_small_mod(c as nat, P as nat);
            }
        }
        while remainder.degree() >= div_deg && !remainder.is_zero()
            invariant
                is_prime(p),
                valid_modulus(p),
                p == P as int,
                a == self.values(),
                dv == divisor.values(),
                div_deg == dv.len() - 1,
                dv.last() != 0,
                div_lead@ == dv.last(),
                (div_lead@ * div_lead_inv@) % p == 1,
                quotient_coeffs.len() == qlen,
                remainder.coeffs.len() <= div_deg + qlen,
                forall|u: int| 0 <= u < remainder.coeffs.len() - div_deg ==> #[trigger] quotient_coeffs[u]@ == 0,
                forall|u: int| 0 <= u < remainder.coeffs.len() ==> 0 <= #[trigger] remainder.values()[u] < p,
                is_trimmed(remainder.values()) || remainder.coeffs.len() >= div_deg + 1,
                forall|k: int| 0 <= k ==> #[trigger] coeff_at(a, k) == (conv(poly_values(quotient_coeffs@), dv, k, qlen as nat)
                    + coeff_at(remainder.values(), k)) % p,
            decreases remainder.coeffs.len(),
        {
            let rem_deg = remainder.degree();
            let shift = rem_deg - div_deg;
            let scale = remainder.coeffs[rem_deg].mul(div_lead_inv);
            let ghost q_before = poly_values(quotient_coeffs@);
            let ghost r_before = remainder.values();
            quotient_coeffs.set(shift, scale);
            let mut i: usize = 0;
            while i <= div_deg
                invariant
                    valid_modulus(p),
                    p == P as int,
                    dv == divisor.values(),
                    div_deg == dv.len() - 1,
                    rem_deg == shift + div_deg,
                    remainder.coeffs.len() == rem_deg + 1,
                    i <= div_deg + 1,
                    forall|u: int| 0 <= u < shift || shift + i <= u <= rem_deg ==> #[trigger] remainder.coeffs[u]@ == r_before[u],
                    forall|u: int| shift <= u < shift + i ==> #[trigger] remainder.coeffs[u]@ == (r_before[u] - (dv[u - shift] * scale@) % p) % p,
                decreases div_deg + 1 - i,
            {
                if shift + i < remainder.coeffs.len() {
                    let c = divisor.coeffs[i];
                    let cur = remainder.coeffs[shift + i];
                    remainder.coeffs.set(shift + i, cur.sub(c.mul(scale)));
                }
                i = i + 1;
            }
            let ghost r_mid = remainder.values();
            proof {
                lemma_division_step(a, dv, q_before, r_before, r_mid, shift as int, scale@, div_lead_inv@, p);
            }
            remainder.trim();
            proof {
                lemma_trim_zeros(r_mid);
                assert forall|k: int| 0 <= k implies #[trigger] coeff_at(a, k) == (conv(poly_values(quotient_coeffs@), dv, k, qlen as nat)
                    + coeff_at(remainder.values(), k)) % p by {
                    assert(poly_values(quotient_coeffs@) == q_before.update(shift as int, scale@));
                    assert(coeff_at(remainder.values(), k) == coeff_at(r_mid, k));
                }
            }
        }
        let quotient = Self::new(quotient_coeffs);
        proof {
            let q = poly_values(quotient_coeffs@);
            lemma_trim_zeros(q);
            assert forall|k: int| 0 <= k implies #[trigger] coeff_at(a, k) == (conv(quotient.values(), dv, k, quotient.values().len())
                + coeff_at(remainder.values(), k)) % p by {
                lemma_conv_prefix(q, quotient.values(), dv, k);
            }
        }
        (quotient, remainder)
    }

    /// Remainder (self % divisor)
    pub fn rem(&self, divisor: &Self) -> (r: Self)
        requires
            is_prime(P as int),
            divisor.coeffs.len() > 0,
            divisor.values().last() != 0,
        ensures
            is_remainder(self.values(), divisor.values(), r.values(), P as int),
            is_trimmed(self.values()) || self.coeffs.len() >= divisor.coeffs.len() ==> is_trimmed(r.values()),
    {
        let (q, r) = self.div_rem(divisor);
        assert(is_division(self.values(), divisor.values(), q.values(), r.values(), P as int));
        r
    }

    /// Greatest Common Divisor (GCD) by Euclid's algorithm, made monic.
    pub fn gcd(a: &Self, b: &Self) -> (r: Self)
        requires
            is_prime(P as int),
            is_trimmed(b.values()),
            b.coeffs.len() == 0 || is_trimmed(a.values()) || a.coeffs.len() >= b.coeffs.len(),
        ensures
            exists|c: Seq<Seq<int>>|
                #[trigger] is_euclid_chain(a.values(), b.values(), c, P as int) && r.values() == poly_monic(
                    c[c.len() - 2],
                    P as int,
                ),
    {
        let ghost p = P as int;
        let mut x = a.copy();
        let mut y = b.copy();
        let ghost mut chain: Seq<Seq<int>> = seq![a.values(), b.values()];
        while !y.is_zero()
            invariant
                is_prime(p),
                p == P as int,
                chain.len() >= 2,
                chain[0] == a.values(),
                chain[1] == b.values(),
                chain[chain.len() - 2] == x.values(),
                chain[chain.len() - 1] == y.values(),
                y.coeffs.len() == 0 || is_trimmed(x.values()) || x.coeffs.len() >= y.coeffs.len(),
                is_trimmed(y.values()),
                forall|i: int| 0 <= i < chain.len() - 2 ==> #[trigger] chain[i + 1].len() > 0,
                forall|i: int| 0 <= i < chain.len() - 2 ==> is_remainder(#[trigger] chain[i], chain[i + 1], chain[i + 2], p),
            decreases y.coeffs.len(),
        {
            let r = x.rem(&y);
            proof {
                let old_chain = chain;
                chain = chain.push(r.values());
                assert forall|i: int| 0 <= i < chain.len() - 2 implies #[trigger] chain[i + 1].len() > 0 by {
                    if i < old_chain.len() - 2 {
                        assert(chain[i + 1] == old_chain[i + 1]);
                    }
                }
                assert forall|i: int| 0 <= i < chain.len() - 2 implies is_remainder(#[trigger] chain[i], chain[i + 1], chain[i + 2], p) by {
                    if i < old_chain.len() - 2 {
                        assert(chain[i] == old_chain[i] && chain[i + 1] == old_chain[i + 1] && chain[i + 2] == old_chain[i + 2]);
                    }
                }
            }
            x = y;
            y = r;
        }
        x.make_monic();
        proof {
            assert(is_euclid_chain(a.values(), b.values(), chain, p)) by {
                assert forall|i: int| 0 <= i < chain.len() - 1 implies #[trigger] chain[i + 1].len() > 0 || i + 1 == chain.len() - 1 by {
                    if i < chain.len() - 2 {
                        assert(chain[i + 1].len() > 0);
                    }
                }
            }
        }
        x
    }

    /// `self^exp`, by square-and-multiply; the length bound keeps every
    /// intermediate product within `usize`.
    pub fn pow(&self, exp: u128) -> (r: Self)
        requires
            valid_modulus(P as int),
            self.coeffs.len() == 0 || (self.coeffs.len() - 1) * (2 * exp) + 2 <= usize::MAX,
        ensures
            r.values() == poly_pow(self.values(), exp as nat, P as int),
    {
        let ghost p = P as int;
        let ghost a = self.values();
        let ghost one = seq![1int];
        let ghost l: int = if self.coeffs.len() == 0 { 0 } else { self.coeffs.len() - 1 };
        let ghost e0 = exp as int;
        let mut base = self.copy();
        let mut result = Self::one();
        let mut e = exp;
        let ghost mut bp: int = 1;
        let ghost mut rp: int = 0;
        proof {
            lemma_pow_unit(a, exp as nat, p);
        }
        while e > 0
            invariant
                valid_modulus(p),
                p == P as int,
                one == seq![1int],
                a == self.values(),
                l == (if self.coeffs.len() == 0 { 0 } else { self.coeffs.len() - 1 }),
                self.coeffs.len() == 0 ==> base.coeffs.len() == 0,
                e0 == exp as int,
                poly_mul(result.values(), one, p) == result.values(),
                poly_mul(result.values(), poly_pow(base.values(), e as nat, p), p) == poly_pow(a, exp as nat, p),
                bp >= 1,
                rp >= 0,
                rp + (e as int) * bp == e0,
                base.coeffs.len() <= l * bp + 1,
                result.coeffs.len() <= l * rp + 1,
                l * (2 * e0) + 2 <= usize::MAX,
            decreases e,
        {
            proof {
                lemma_pow_step(result.values(), base.values(), e as nat, p);
                assert(bp <= (e as int) * bp) by (nonlinear_arith)
                    requires
                        e >= 1,
                        bp >= 1,
                ;
                assert(l * bp <= l * e0) by (nonlinear_arith)
                    requires
                        bp <= e0,
                        l >= 0,
                ;
                assert(l * (rp + bp) <= l * e0) by (nonlinear_arith)
                    requires
                        rp + bp <= e0,
                        l >= 0,
                ;
                assert(l * rp + l * bp == l * (rp + bp)) by (nonlinear_arith);
                assert(l * (2 * bp) == 2 * (l * bp)) by (nonlinear_arith);
                assert(l * e0 + 2 <= usize::MAX) by (nonlinear_arith)
                    requires
                        l * (2 * e0) + 2 <= usize::MAX,
                        l >= 0,
                        e0 >= 0,
                ;
                assert(2 * (l * e0) + 2 <= usize::MAX) by (nonlinear_arith)
                    requires
                        l * (2 * e0) + 2 <= usize::MAX,
                        l >= 0,
                        e0 >= 0,
                ;
            }
            let ghost old_e = e as int;
            if e % 2 == 1 {
                let ghost r_old = result.values();
                let ghost b_old = base.values();
                result = result.mul(&base);
                proof {
                    lemma_mul_shape(r_old, b_old, p);
                    rp = rp + bp;
                }
            }
            let ghost b_old = base.values();
            base = base.mul(&base);
            proof {
                lemma_mul_shape(b_old, b_old, p);
            }
            e = e / 2;
            proof {
                assert(rp + (e as int) * (2 * bp) == e0) by (nonlinear_arith)
                    requires
                        old_e % 2 == 1 ==> rp == e0 - old_e * bp + bp,
                        old_e % 2 == 0 ==> rp == e0 - old_e * bp,
                        e == old_e / 2,
                        old_e >= 1,
                ;
                bp = 2 * bp;
            }
        }
        proof {
            assert(poly_pow(base.values(), 0, p) == one);
        }
        result
    }

    /// `self^exp` modulo `modulus`, by square-and-multiply with a reduction
    /// after each product. The result differs from `self^exp` by a multiple of
    /// `modulus`; it is shorter than `modulus` except for `exp == 0`, where it
    /// is 1.
    pub fn pow_mod(&self, exp: u128, modulus: &Self) -> (r: Self)
        requires
            valid_modulus(P as int),
            is_prime(P as int),
            modulus.coeffs.len() > 0,
            modulus.values().last() != 0,
            2 * modulus.coeffs.len() <= usize::MAX,
        ensures
            exists|q: Seq<int>|
                #[trigger] is_division(poly_pow(self.values(), exp as nat, P as int), modulus.values(), q, r.values(), P as int),
            exp > 0 || modulus.coeffs.len() > 1 ==> r.coeffs.len() < modulus.coeffs.len(),
            exp == 0 ==> r.values() == seq![1int],
            is_trimmed(r.values()),
    {
        let ghost p = P as int;
        let ghost m = modulus.values();
        let ghost t = poly_pow(self.values(), exp as nat, p);
        let ghost one = seq![1int];
        let mut base = self.rem(modulus);
        let mut result = Self::one();
        let mut e = exp;
        proof {
            let q0 = choose|q: Seq<int>| #[trigger] is_division(self.values(), m, q, base.values(), p);
            lemma_division_congruent(self.values(), m, q0, base.values(), p);
            lemma_congruent_pow(self.values(), base.values(), m, exp as nat, p);
            lemma_pow_unit(base.values(), exp as nat, p);
            lemma_poly_mul_comm(one, poly_pow(base.values(), exp as nat, p), p);
        }
        while e > 0
            invariant
                valid_modulus(p),
                is_prime(p),
                p == P as int,
                one == seq![1int],
                m == modulus.values(),
                t == poly_pow(self.values(), exp as nat, p),
                modulus.coeffs.len() > 0,
                m.last() != 0,
                2 * modulus.coeffs.len() <= usize::MAX,
                base.coeffs.len() < modulus.coeffs.len(),
                result.coeffs.len() < modulus.coeffs.len() || result.values() == one,
                e <= exp,
                exp == 0 ==> result.values() == one,
                e == 0 && exp > 0 ==> result.coeffs.len() < modulus.coeffs.len(),
                is_trimmed(result.values()),
                poly_congruent(t, poly_mul(result.values(), poly_pow(base.values(), e as nat, p), p), m, p),
            decreases e,
        {
            let ghost r_old = result.values();
            let ghost b_old = base.values();
            if e % 2 == 1 {
                let prod = result.mul(&base);
                proof {
                    lemma_mul_coeff(r_old, b_old, 0, p);
                }
                result = prod.rem(modulus);
                proof {
                    let q1 = choose|q: Seq<int>| #[trigger] is_division(prod.values(), m, q, result.values(), p);
                    lemma_division_congruent(prod.values(), m, q1, result.values(), p);
                }
            }
            let sq = base.mul(&base);
            proof {
                lemma_mul_coeff(b_old, b_old, 0, p);
            }
            base = sq.rem(modulus);
            proof {
                let q2 = choose|q: Seq<int>| #[trigger] is_division(sq.values(), m, q, base.values(), p);
                lemma_division_congruent(sq.values(), m, q2, base.values(), p);
                lemma_pow_mod_step(t, r_old, b_old, e as nat, result.values(), base.values(), m, p);
            }
            e = e / 2;
        }
        result.residues();
        proof {
            assert(poly_pow(base.values(), 0, p) == one);
            lemma_poly_mul_one(result.values(), p);
            lemma_pow_residues(self.values(), exp as nat, p);
            let qf = choose|q: Seq<int>| #[trigger] congruent_by(t, result.values(), m, q, p);
            lemma_congruent_division(t, result.values(), m, qf, p);
        }
        result
    }
}

} // verus!
