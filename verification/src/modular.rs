//! Arithmetic modulo an integer: the facts about residues, powers and primes
//! that the finite-field code relies on, up to Fermat's little theorem.
use vstd::arithmetic::div_mod::*;
use vstd::arithmetic::mul::*;
use vstd::arithmetic::power::*;
use vstd::prelude::*;

verus! {

/// `p` is a prime number.
pub open spec fn is_prime(p: int) -> bool {
    &&& p > 1
    &&& forall|d: int| 1 < d < p ==> #[trigger] (p % d) != 0
}

/// `x mod p` is `x - q * p` whenever that difference lies in `[0, p)`.
pub proof fn lemma_mod_by_quotient(x: int, p: int, q: int)
    requires
        p > 0,
        0 <= x - q * p < p,
    ensures
        x % p == x - q * p,
{
    lemma_fundamental_div_mod_converse(x, p, q, x - q * p);
}

/// A multiple of `p` is zero modulo `p`.
pub proof fn lemma_multiple_mod(k: int, p: int)
    requires
        p > 0,
    ensures
        (k * p) % p == 0,
        (p * k) % p == 0,
{
    lemma_mod_multiples_basic(k, p);
    lemma_mul_is_commutative(k, p);
}

/// Reducing either factor first does not change a product modulo `p`.
pub proof fn lemma_mul_mod_both(x: int, y: int, p: int)
    requires
        p > 0,
    ensures
        ((x % p) * (y % p)) % p == (x * y) % p,
        ((x % p) * y) % p == (x * y) % p,
        (x * (y % p)) % p == (x * y) % p,
{
    lemma_mul_mod_noop(x, y, p);
    lemma_mul_mod_noop_left(x, y, p);
    lemma_mul_mod_noop_right(x, y, p);
}

/// Reducing either summand first does not change a sum modulo `p`.
pub proof fn lemma_add_mod_both(x: int, y: int, p: int)
    requires
        p > 0,
    ensures
        ((x % p) + (y % p)) % p == (x + y) % p,
        ((x % p) + y) % p == (x + y) % p,
        (x + (y % p)) % p == (x + y) % p,
{
    lemma_add_mod_noop(x, y, p);
    lemma_add_mod_noop(x % p, y, p);
    lemma_mod_twice(x, p);
    lemma_add_mod_noop(x, y % p, p);
    lemma_mod_twice(y, p);
}

/// Reducing either operand first does not change a difference modulo `p`.
pub proof fn lemma_sub_mod_both(x: int, y: int, p: int)
    requires
        p > 0,
    ensures
        ((x % p) - (y % p)) % p == (x - y) % p,
        ((x % p) - y) % p == (x - y) % p,
        (x - (y % p)) % p == (x - y) % p,
{
    lemma_sub_mod_noop(x, y, p);
    lemma_sub_mod_noop(x % p, y, p);
    lemma_mod_twice(x, p);
    lemma_sub_mod_noop(x, y % p, p);
    lemma_mod_twice(y, p);
}

/// A residue modulo `p` lies in `[0, p)`, and residues are their own reduction.
pub proof fn lemma_mod_range(x: int, p: int)
    requires
        p > 0,
    ensures
        0 <= x % p < p,
        (x % p) % p == x % p,
{
    lemma_mod_bound(x, p);
    lemma_mod_twice(x, p);
}

/// Two integers with the same residue differ by a multiple of `p`, and conversely.
pub proof fn lemma_mod_eq_iff_diff(x: int, y: int, p: int)
    requires
        p > 0,
    ensures
        (x % p == y % p) <==> ((x - y) % p == 0),
{
    lemma_sub_mod_both(x, y, p);
    lemma_mod_range(x, p);
    lemma_mod_range(y, p);
    if (x - y) % p == 0 {
        let d = (x % p) - (y % p);
        assert(-p < d < p);
        if d < 0 {
            lemma_mod_by_quotient(d, p, -1);
        } else {
            lemma_small_mod(d as nat, p as nat);
        }
    } else {
        if x % p == y % p {
            lemma_small_mod(0, p as nat);
        }
    }
}

/// Euclid's lemma for a factor already reduced below the prime.
proof fn lemma_euclid_reduced(a: int, b: int, p: int)
    requires
        is_prime(p),
        0 < a < p,
        (a * b) % p == 0,
    ensures
        b % p == 0,
    decreases a,
{
    if a == 1 {
        assert(a * b == b) by (nonlinear_arith)
            requires
                a == 1,
        ;
    } else {
        let q = p / a;
        let r = p % a;
        lemma_fundamental_div_mod(p, a);
        lemma_mod_range(p, a);
        assert(p % a != 0);
        let k = (a * b) / p;
        lemma_fundamental_div_mod(a * b, p);
        assert(r * b == (b - q * k) * p) by (nonlinear_arith)
            requires
                a * b == p * k,
                p == a * q + r,
        ;
        lemma_multiple_mod(b - q * k, p);
        lemma_euclid_reduced(r, b, p);
    }
}

/// Euclid's lemma: a prime dividing a product divides one of its factors.
pub proof fn lemma_euclid(a: int, b: int, p: int)
    requires
        is_prime(p),
        (a * b) % p == 0,
    ensures
        a % p == 0 || b % p == 0,
{
    if a % p != 0 {
        lemma_mod_range(a, p);
        lemma_mul_mod_both(a, b, p);
        lemma_euclid_reduced(a % p, b, p);
    }
}

/// The only square roots of one modulo a prime are `1` and `-1`.
pub proof fn lemma_square_root_of_one(x: int, p: int)
    requires
        is_prime(p),
        (x * x) % p == 1,
    ensures
        x % p == 1 || x % p == p - 1,
{
    assert((x - 1) * (x + 1) == x * x - 1) by (nonlinear_arith);
    lemma_small_mod(1, p as nat);
    lemma_mod_eq_iff_diff(x * x, 1, p);
    lemma_euclid(x - 1, x + 1, p);
    if (x - 1) % p == 0 {
        lemma_mod_eq_iff_diff(x, 1, p);
    } else {
        lemma_mod_eq_iff_diff(x, -1, p);
        lemma_mod_by_quotient(-1, p, -1);
    }
}

// -----------------------------------------------------------------------------
// Binomial coefficients
// -----------------------------------------------------------------------------

/// The binomial coefficient `n choose k`, by Pascal's rule.
pub open spec fn binom(n: nat, k: nat) -> nat
    decreases n,
{
    if k == 0 {
        1
    } else if n == 0 {
        0
    } else {
        binom((n - 1) as nat, (k - 1) as nat) + binom((n - 1) as nat, k)
    }
}

proof fn lemma_binom_above(n: nat, k: nat)
    requires
        k > n,
    ensures
        binom(n, k) == 0,
    decreases n,
{
    if n > 0 {
        lemma_binom_above((n - 1) as nat, (k - 1) as nat);
        lemma_binom_above((n - 1) as nat, k);
    }
}

proof fn lemma_binom_diag(n: nat)
    ensures
        binom(n, n) == 1,
    decreases n,
{
    if n > 0 {
        lemma_binom_diag((n - 1) as nat);
        lemma_binom_above((n - 1) as nat, n);
    }
}

/// The absorption identity `k * C(n, k) == n * C(n - 1, k - 1)`.
pub proof fn lemma_binom_absorption(n: nat, k: nat)
    requires
        n >= 1,
        k >= 1,
    ensures
        k * binom(n, k) == n * binom((n - 1) as nat, (k - 1) as nat),
    decreases n,
{
    if n == 1 {
        if k == 1 {
            assert(binom(0, 0) == 1);
            assert(binom(0, 1) == 0);
            assert(binom(1, 1) == 1);
        } else {
            lemma_binom_above(0, (k - 1) as nat);
            lemma_binom_above(0, k);
            lemma_binom_above(1, k);
            assert(k * binom(n, k) == 0) by (nonlinear_arith)
                requires
                    binom(n, k) == 0,
            ;
        }
    } else {
        let m = (n - 1) as nat;
        lemma_binom_absorption(m, k);
        if k == 1 {
            assert(binom(m, 0) == 1);
            assert(binom((m - 1) as nat, 0) == 1);
            assert(binom(n, 1) == 1 + binom(m, 1));
            assert(binom(m, 1) == m) by (nonlinear_arith)
                requires
                    1 * binom(m, 1) == m * binom((m - 1) as nat, 0),
                    binom((m - 1) as nat, 0) == 1,
            ;
        } else {
            lemma_binom_absorption(m, (k - 1) as nat);
            let a = binom(m, (k - 1) as nat);
            let b = binom(m, k);
            let c = binom((m - 1) as nat, (k - 2) as nat);
            let e = binom((m - 1) as nat, (k - 1) as nat);
            assert(binom(n, k) == a + b);
            assert(a == c + e);
            assert(k * b == m * e);
            assert((k - 1) * a == m * c);
            assert(k * binom(n, k) == n * a) by (nonlinear_arith)
                requires
                    k * b == m * e,
                    (k - 1) * a == m * c,
                    a == c + e,
                    n == m + 1,
                    binom(n, k) == a + b,
            ;
        }
    }
}

/// A prime divides every binomial coefficient `C(p, k)` with `0 < k < p`.
proof fn lemma_prime_divides_binom(p: nat, k: nat)
    requires
        is_prime(p as int),
        0 < k < p,
    ensures
        (binom(p, k) as int) % (p as int) == 0,
{
    lemma_binom_absorption(p, k);
    let c = binom((p - 1) as nat, (k - 1) as nat) as int;
    lemma_multiple_mod(c, p as int);
    assert((k as int) * (binom(p, k) as int) == (p as int) * c);
    lemma_euclid(k as int, binom(p, k) as int, p as int);
    lemma_small_mod(k, p);
}

/// `bsum(n, a, j)` is the sum of `C(n, i) * a^i` over `0 <= i < j`.
pub open spec fn bsum(n: nat, a: int, j: nat) -> int
    decreases j,
{
    if j == 0 {
        0
    } else {
        bsum(n, a, (j - 1) as nat) + binom(n, (j - 1) as nat) * pow(a, (j - 1) as nat)
    }
}

proof fn lemma_pow_succ(a: int, e: nat)
    ensures
        pow(a, e + 1) == a * pow(a, e),
{
    reveal(pow);
}

/// Pascal's rule lifted to the partial sums of the binomial expansion.
proof fn lemma_bsum_pascal(n: nat, a: int, j: nat)
    requires
        j >= 1,
    ensures
        bsum(n + 1, a, j) == bsum(n, a, j) + a * bsum(n, a, (j - 1) as nat),
    decreases j,
{
    reveal(pow);
    if j == 1 {
        assert(bsum(n + 1, a, 0) == 0);
        assert(bsum(n, a, 0) == 0);
        assert(bsum(n + 1, a, 1) == 1);
        assert(bsum(n, a, 1) == 1);
    } else {
        let i = (j - 1) as nat;
        lemma_bsum_pascal(n, a, i);
        lemma_pow_succ(a, (i - 1) as nat);
        let s1 = bsum(n, a, i);
        let s0 = bsum(n, a, (i - 1) as nat);
        let c1 = binom(n, i) as int;
        let c0 = binom(n, (i - 1) as nat) as int;
        let pi = pow(a, i);
        let pi0 = pow(a, (i - 1) as nat);
        assert(binom(n + 1, i) == c0 + c1);
        assert(bsum(n + 1, a, j) == s1 + a * s0 + (c0 + c1) * pi);
        assert(bsum(n, a, j) == s1 + c1 * pi);
        assert(bsum(n, a, i) == s0 + c0 * pi0);
        assert(s1 + a * s0 + (c0 + c1) * pi == (s1 + c1 * pi) + a * (s0 + c0 * pi0))
            by (nonlinear_arith)
            requires
                pi == a * pi0,
        ;
    }
}

/// The binomial theorem for `(a + 1)^n`.
proof fn lemma_binomial_theorem(n: nat, a: int)
    ensures
        pow(a + 1, n) == bsum(n, a, n + 1),
    decreases n,
{
    reveal(pow);
    if n == 0 {
        assert(bsum(0, a, 0) == 0);
        assert(bsum(0, a, 1) == 1);
    } else {
        let m = (n - 1) as nat;
        lemma_binomial_theorem(m, a);
        lemma_bsum_pascal(m, a, n + 1);
        lemma_binom_above(m, n);
        assert(bsum(m, a, n + 1) == bsum(m, a, n));
        assert(pow(a + 1, n) == (a + 1) * pow(a + 1, m));
        assert((a + 1) * bsum(m, a, n) == bsum(m, a, n) + a * bsum(m, a, n)) by (nonlinear_arith);
    }
}

/// Modulo a prime `p`, all middle terms of the expansion of `(a + 1)^p` vanish.
proof fn lemma_bsum_mod_prime(p: nat, a: int, j: nat)
    requires
        is_prime(p as int),
        1 <= j <= p,
    ensures
        bsum(p, a, j) % (p as int) == 1,
    decreases j,
{
    reveal(pow);
    lemma_small_mod(1, p);
    if j == 1 {
        assert(bsum(p, a, 0) == 0);
        assert(bsum(p, a, 1) == 1);
    } else {
        let i = (j - 1) as nat;
        lemma_bsum_mod_prime(p, a, i);
        lemma_prime_divides_binom(p, i);
        let c = binom(p, i) as int;
        let t = c * pow(a, i);
        lemma_mul_mod_both(c, pow(a, i), p as int);
        assert((c % (p as int)) * pow(a, i) == 0) by (nonlinear_arith)
            requires
                c % (p as int) == 0,
        ;
        lemma_small_mod(0, p);
        assert(t % (p as int) == 0);
        lemma_add_mod_both(bsum(p, a, i), t, p as int);
    }
}

/// The "freshman's dream" step: `(a + 1)^p == a^p + 1` modulo a prime `p`.
proof fn lemma_freshman(p: nat, a: int)
    requires
        is_prime(p as int),
    ensures
        pow(a + 1, p) % (p as int) == (pow(a, p) + 1) % (p as int),
{
    lemma_binomial_theorem(p, a);
    lemma_bsum_mod_prime(p, a, p);
    lemma_binom_diag(p);
    assert(bsum(p, a, p + 1) == bsum(p, a, p) + pow(a, p));
    lemma_add_mod_both(bsum(p, a, p), pow(a, p), p as int);
    lemma_add_mod_both(1, pow(a, p), p as int);
    lemma_small_mod(1, p);
}

proof fn lemma_fermat_nat(p: nat, a: nat)
    requires
        is_prime(p as int),
    ensures
        pow(a as int, p) % (p as int) == (a as int) % (p as int),
    decreases a,
{
    if a == 0 {
        reveal(pow);
        lemma0_pow(p);
    } else {
        let b = (a - 1) as nat;
        lemma_fermat_nat(p, b);
        lemma_freshman(p, b as int);
        lemma_add_mod_both(pow(b as int, p), 1, p as int);
        lemma_add_mod_both(b as int, 1, p as int);
    }
}

/// Fermat's little theorem: `a^p == a` modulo a prime `p`.
pub proof fn lemma_fermat(p: int, a: int)
    requires
        is_prime(p),
    ensures
        pow(a, p as nat) % p == a % p,
{
    lemma_mod_range(a, p);
    lemma_fermat_nat(p as nat, (a % p) as nat);
    lemma_pow_mod_noop(a, p as nat, p);
}

/// Fermat's little theorem, second form: `a^(p-1) == 1` modulo a prime `p`
/// for every `a` that `p` does not divide.
pub proof fn lemma_fermat_unit(p: int, a: int)
    requires
        is_prime(p),
        a % p != 0,
    ensures
        pow(a, (p - 1) as nat) % p == 1,
{
    lemma_fermat(p, a);
    lemma_pow_succ(a, (p - 1) as nat);
    let t = pow(a, (p - 1) as nat);
    assert(a * (t - 1) == a * t - a) by (nonlinear_arith);
    lemma_mod_eq_iff_diff(a * t, a, p);
    lemma_euclid(a, t - 1, p);
    lemma_mod_eq_iff_diff(t, 1, p);
    lemma_small_mod(1, p as nat);
}

// -----------------------------------------------------------------------------
// Powers modulo p
// -----------------------------------------------------------------------------

/// Powers can be reduced modulo `p` at any point.
pub proof fn lemma_pow_mod_base(x: int, e: nat, p: int)
    requires
        p > 0,
    ensures
        pow(x % p, e) % p == pow(x, e) % p,
{
    lemma_pow_mod_noop(x, e, p);
}

/// `(x^e1 mod p)^e2 == x^(e1 * e2)` modulo `p`.
pub proof fn lemma_pow_pow_mod(x: int, e1: nat, e2: nat, p: int)
    requires
        p > 0,
    ensures
        pow(pow(x, e1) % p, e2) % p == pow(x, e1 * e2) % p,
{
    lemma_pow_mod_noop(pow(x, e1), e2, p);
    lemma_pow_multiplies(x, e1, e2);
}

/// `x^e1 * x^e2 == x^(e1 + e2)` modulo `p`, with the factors reduced or not.
pub proof fn lemma_pow_mul_mod(x: int, e1: nat, e2: nat, p: int)
    requires
        p > 0,
    ensures
        ((pow(x, e1) % p) * (pow(x, e2) % p)) % p == pow(x, e1 + e2) % p,
{
    lemma_mul_mod_both(pow(x, e1), pow(x, e2), p);
    lemma_pow_adds(x, e1, e2);
}

/// `(x * y)^e == x^e * y^e` modulo `p`.
pub proof fn lemma_pow_of_product_mod(x: int, y: int, e: nat, p: int)
    requires
        p > 0,
    ensures
        pow((x * y) % p, e) % p == ((pow(x, e) % p) * (pow(y, e) % p)) % p,
{
    lemma_pow_mod_noop(x * y, e, p);
    lemma_pow_distributes(x, y, e);
    lemma_mul_mod_both(pow(x, e), pow(y, e), p);
}

/// `x^(e + 1) == x * x^e`.
pub proof fn lemma_pow_unfold(x: int, e: nat)
    ensures
        pow(x, e + 1) == x * pow(x, e),
        pow(x, 0) == 1,
        pow(x, 1) == x,
{
    reveal(pow);
    lemma_pow1(x);
}

// -----------------------------------------------------------------------------
// Quadratic residues by Euler's criterion
// -----------------------------------------------------------------------------

/// `a^((p - 1) / 2) mod p`, the value that Euler's criterion inspects.
pub open spec fn euler_value(a: int, p: int) -> int {
    pow(a, ((p - 1) / 2) as nat) % p
}

/// `a` is zero or passes Euler's criterion modulo `p`.
pub open spec fn is_euler_square(a: int, p: int) -> bool {
    a % p == 0 || euler_value(a, p) == 1
}

/// Some residue in `[2, p)` fails Euler's criterion.
pub open spec fn has_non_residue(p: int) -> bool {
    exists|x: int| 2 <= x < p && !#[trigger] is_euler_square(x, p)
}

/// Modulo an odd prime, Euler's criterion takes only the values `1` and `-1` on units.
pub proof fn lemma_euler_value_sign(a: int, p: int)
    requires
        is_prime(p),
        p % 2 == 1,
        a % p != 0,
    ensures
        euler_value(a, p) == 1 || euler_value(a, p) == p - 1,
{
    let h = ((p - 1) / 2) as nat;
    let v = pow(a, h);
    lemma_fermat_unit(p, a);
    assert(h + h == (p - 1) as nat);
    lemma_pow_adds(a, h, h);
    lemma_mul_mod_both(v, v, p);
    lemma_square_root_of_one(v % p, p);
    lemma_mod_range(v, p);
}

/// A square of a unit passes Euler's criterion modulo an odd prime.
pub proof fn lemma_square_passes_euler(x: int, p: int)
    requires
        is_prime(p),
        p % 2 == 1,
        x % p != 0,
    ensures
        euler_value(x * x, p) == 1,
{
    let h = ((p - 1) / 2) as nat;
    lemma_pow_distributes(x, x, h);
    lemma_pow_adds(x, h, h);
    assert(h + h == (p - 1) as nat);
    lemma_fermat_unit(p, x);
}

// -----------------------------------------------------------------------------
// Congruences
// -----------------------------------------------------------------------------

/// Products of congruent factors are congruent.
pub proof fn lemma_mul_cong(x: int, y: int, x2: int, y2: int, p: int)
    requires
        p > 0,
        x % p == x2 % p,
        y % p == y2 % p,
    ensures
        (x * y) % p == (x2 * y2) % p,
{
    lemma_mul_mod_both(x, y, p);
    lemma_mul_mod_both(x2, y2, p);
}

/// Sums of congruent summands are congruent.
pub proof fn lemma_add_cong(x: int, y: int, x2: int, y2: int, p: int)
    requires
        p > 0,
        x % p == x2 % p,
        y % p == y2 % p,
    ensures
        (x + y) % p == (x2 + y2) % p,
{
    lemma_add_mod_both(x, y, p);
    lemma_add_mod_both(x2, y2, p);
}

/// Differences of congruent operands are congruent.
pub proof fn lemma_sub_cong(x: int, y: int, x2: int, y2: int, p: int)
    requires
        p > 0,
        x % p == x2 % p,
        y % p == y2 % p,
    ensures
        (x - y) % p == (x2 - y2) % p,
{
    lemma_sub_mod_both(x, y, p);
    lemma_sub_mod_both(x2, y2, p);
}

/// With `p` prime, a factor that is nonzero modulo `p` cancels from a congruence.
pub proof fn lemma_cancel_factor(c: int, x: int, y: int, p: int)
    requires
        is_prime(p),
        c % p != 0,
        (c * x) % p == (c * y) % p,
    ensures
        x % p == y % p,
{
    assert(c * x - c * y == c * (x - y)) by (nonlinear_arith);
    lemma_mod_eq_iff_diff(c * x, c * y, p);
    lemma_euclid(c, x - y, p);
    lemma_mod_eq_iff_diff(x, y, p);
}

/// Euler's criterion is multiplicative.
pub proof fn lemma_euler_mul(x: int, y: int, p: int)
    requires
        p > 1,
    ensures
        euler_value((x * y) % p, p) == (euler_value(x, p) * euler_value(y, p)) % p,
        euler_value(x * y, p) == euler_value((x * y) % p, p),
{
    let e = ((p - 1) / 2) as nat;
    lemma_pow_of_product_mod(x, y, e, p);
    lemma_pow_mod_base(x * y, e, p);
}

/// A product of two values that are each `1` or `p - 1` is `1` modulo `p` when
/// they agree and `p - 1` when they differ.
pub proof fn lemma_sign_product(u: int, v: int, p: int)
    requires
        p > 2,
        u == 1 || u == p - 1,
        v == 1 || v == p - 1,
    ensures
        (u * v) % p == (if u == v { 1 } else { p - 1 }),
{
    if u == 1 && v == 1 {
        lemma_small_mod(1, p as nat);
    } else if u == 1 {
        lemma_small_mod((p - 1) as nat, p as nat);
    } else if v == 1 {
        assert(u * v == p - 1);
        lemma_small_mod((p - 1) as nat, p as nat);
    } else {
        assert((p - 1) * (p - 1) == 1 + p * (p - 2)) by (nonlinear_arith);
        lemma_mod_by_quotient(1 + p * (p - 2), p, p - 2);
    }
}

/// The Euler value of a unit modulo an odd prime is `1` exactly when it is a
/// square by the criterion, and `p - 1` otherwise.
pub proof fn lemma_euler_nonsquare(a: int, p: int)
    requires
        is_prime(p),
        p % 2 == 1,
        a % p != 0,
    ensures
        is_euler_square(a, p) <==> euler_value(a, p) == 1,
        !is_euler_square(a, p) <==> euler_value(a, p) == p - 1,
{
    lemma_euler_value_sign(a, p);
}

/// A product of two units modulo a prime is a unit.
pub proof fn lemma_unit_product(x: int, y: int, p: int)
    requires
        is_prime(p),
        x % p != 0,
        y % p != 0,
    ensures
        (x * y) % p != 0,
{
    if (x * y) % p == 0 {
        lemma_euclid(x, y, p);
    }
}

/// The residue of `a` modulo `p` has the same Euler value.
pub proof fn lemma_euler_mod(a: int, p: int)
    requires
        p > 1,
    ensures
        euler_value(a % p, p) == euler_value(a, p),
        is_euler_square(a % p, p) == is_euler_square(a, p),
{
    lemma_pow_mod_base(a, ((p - 1) / 2) as nat, p);
    lemma_mod_range(a, p);
}

} // verus!
